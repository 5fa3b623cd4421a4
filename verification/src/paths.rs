use vstd::prelude::*;

use crate::types::strs_view;

verus! {

// ---------------------------------------------------------------------
// Paths as the names between their slashes.
// ---------------------------------------------------------------------

/// The names of `s` between slashes, `cur` being the name read so far;
/// empty names (from repeated or final slashes) are left out.
pub open spec fn names_from(s: Seq<char>, cur: Seq<char>) -> Seq<Seq<char>>
    decreases s.len(),
{
    if s.len() == 0 {
        if cur.len() > 0 {
            seq![cur]
        } else {
            seq![]
        }
    } else if s[0] == '/' {
        (if cur.len() > 0 {
            seq![cur]
        } else {
            seq![]
        }) + names_from(s.drop_first(), seq![])
    } else {
        names_from(s.drop_first(), cur.push(s[0]))
    }
}

/// The names of a path: the non-empty pieces between its slashes.
pub open spec fn segments(s: Seq<char>) -> Seq<Seq<char>> {
    names_from(s, seq![])
}

/// Whether a path starts at the root.
pub open spec fn is_absolute(s: Seq<char>) -> bool {
    s.len() > 0 && s[0] == '/'
}

/// Whether a path ends with a slash after some name.
pub open spec fn ends_with_slash(s: Seq<char>) -> bool {
    s.len() > 0 && s.last() == '/'
}

/// The names `names` written after `base`, each after a slash.
pub open spec fn with_names(base: Seq<char>, names: Seq<Seq<char>>) -> Seq<char>
    decreases names.len(),
{
    if names.len() == 0 {
        base
    } else {
        with_names(base + seq!['/'] + names[0], names.drop_first())
    }
}

/// `base` without the slashes at its end.
pub open spec fn trim_end_slashes(base: Seq<char>) -> Seq<char>
    decreases base.len(),
{
    if base.len() > 0 && base.last() == '/' {
        trim_end_slashes(base.drop_last())
    } else {
        base
    }
}

/// The names `names` below `base`, keeping a final slash of `path`; below
/// an empty base the names stand alone, as a relative path.
pub open spec fn below(base: Seq<char>, names: Seq<Seq<char>>, path: Seq<char>) -> Seq<char> {
    if names.len() == 0 {
        base
    } else {
        (if base.len() == 0 {
            with_names(names[0], names.drop_first())
        } else {
            with_names(trim_end_slashes(base), names)
        }) + (if ends_with_slash(path) {
            seq!['/']
        } else {
            seq![]
        })
    }
}

/// A path that starts with the name `~` is read below the home directory
/// (the root when there is none); any other path is left as it is.
pub open spec fn expand_spec(path: Seq<char>, home: Option<Seq<char>>) -> Seq<char> {
    let names = segments(path);
    if !is_absolute(path) && names.len() > 0 && names[0] == seq!['~'] {
        below(
            match home {
                Some(h) => h,
                None => seq!['/'],
            },
            names.drop_first(),
            path,
        )
    } else {
        path
    }
}

/// A path below the home directory is written below `~`; any other path
/// (every path, when there is no home directory) is left as it is.
pub open spec fn condense_spec(path: Seq<char>, home: Option<Seq<char>>) -> Seq<char> {
    match home {
        None => path,
        Some(h) => {
            let names = segments(path);
            let hn = segments(h);
            if is_absolute(path) == is_absolute(h) && hn.len() <= names.len() && names.subrange(
                0,
                hn.len() as int,
            ) == hn {
                below(seq!['~'], names.subrange(hn.len() as int, names.len() as int), path)
            } else {
                path
            }
        },
    }
}

fn text(s: &str) -> (res: String)
    ensures
        res@ == s@,
{
    s.to_owned()
}

/// The names of `s` (see `segments`).
pub fn segments_of(s: &str) -> (res: Vec<String>)
    ensures
        strs_view(res@) == segments(s@),
{
    let n = s.unicode_len();
    let mut out: Vec<String> = Vec::new();
    let mut cur = String::new();
    let mut i: usize = 0;
    proof {
        assert(s@.subrange(0, n as int) =~= s@);
        assert(strs_view(out@) =~= Seq::<Seq<char>>::empty());
        assert(cur@ =~= Seq::<char>::empty());
        assert(Seq::<Seq<char>>::empty() + names_from(s@, seq![]) =~= names_from(s@, seq![]));
    }
    while i < n
        invariant
            i <= n,
            n == s@.len(),
            strs_view(out@) + names_from(s@.subrange(i as int, n as int), cur@) == segments(s@),
        decreases n - i,
    {
        let c = s.get_char(i);
        let ghost t = s@.subrange(i as int, n as int);
        let ghost before = strs_view(out@);
        let ghost cur0 = cur@;
        proof {
            assert(t[0] == c);
            assert(t.drop_first() =~= s@.subrange(i + 1, n as int));
        }
        if c == '/' {
            if cur.unicode_len() > 0 {
                out.push(cur);
                proof {
                    assert(strs_view(out@) =~= before + seq![cur0]);
                    assert(before + names_from(t, cur0) =~= before + seq![cur0] + names_from(t.drop_first(), seq![]));
                }
            } else {
                proof {
                    assert(before + names_from(t, cur0) =~= before + names_from(t.drop_first(), seq![]));
                }
            }
            cur = String::new();
            proof {
                assert(cur@ =~= Seq::<char>::empty());
            }
        } else {
            cur.push(c);
        }
        i = i + 1;
    }
    proof {
        assert(s@.subrange(n as int, n as int) =~= Seq::<char>::empty());
    }
    let ghost before = strs_view(out@);
    let ghost cur0 = cur@;
    if cur.unicode_len() > 0 {
        out.push(cur);
        proof {
            assert(strs_view(out@) =~= before + seq![cur0]);
        }
    } else {
        proof {
            assert(before + Seq::<Seq<char>>::empty() =~= before);
        }
    }
    out
}

fn trim_end(base: &str) -> (res: String)
    ensures
        res@ == trim_end_slashes(base@),
{
    let mut end = base.unicode_len();
    proof {
        assert(base@.subrange(0, end as int) =~= base@);
    }
    while end > 0 && base.get_char(end - 1) == '/'
        invariant
            end <= base@.len(),
            trim_end_slashes(base@.subrange(0, end as int)) == trim_end_slashes(base@),
        decreases end,
    {
        proof {
            let t = base@.subrange(0, end as int);
            assert(t.last() == '/');
            assert(t.drop_last() =~= base@.subrange(0, end - 1));
        }
        end = end - 1;
    }
    crate::builtins::sub_text(base, 0, end)
}

/// `base` followed by a slash and each name of `names` from index `from` on.
fn with_names_text(base: String, names: &Vec<String>, from: usize) -> (res: String)
    requires
        from <= names@.len(),
    ensures
        res@ == with_names(base@, strs_view(names@).subrange(from as int, names@.len() as int)),
{
    let mut out = base;
    let mut i = from;
    while i < names.len()
        invariant
            from <= i <= names@.len(),
            with_names(out@, strs_view(names@).subrange(i as int, names@.len() as int)) == with_names(
                base@,
                strs_view(names@).subrange(from as int, names@.len() as int),
            ),
        decreases names@.len() - i,
    {
        let ghost before = out@;
        proof {
            let t = strs_view(names@).subrange(i as int, names@.len() as int);
            assert(t[0] == names@[i as int]@);
            assert(t.drop_first() =~= strs_view(names@).subrange(i + 1, names@.len() as int));
        }
        out.push('/');
        crate::strings::append_str(&mut out, names[i].as_str());
        proof {
            assert(out@ =~= before + seq!['/'] + names@[i as int]@);
        }
        i = i + 1;
    }
    proof {
        assert(strs_view(names@).subrange(names@.len() as int, names@.len() as int) =~= Seq::<Seq<char>>::empty());
    }
    out
}

/// The names of `names` from index `from` below `base` (see `below`).
fn below_text(base: &str, names: &Vec<String>, from: usize, path: &str) -> (res: String)
    requires
        from <= names@.len(),
    ensures
        res@ == below(base@, strs_view(names@).subrange(from as int, names@.len() as int), path@),
{
    if from == names.len() {
        return text(base);
    }
    let mut out = if base.unicode_len() == 0 {
        proof {
            let t = strs_view(names@).subrange(from as int, names@.len() as int);
            assert(t[0] == names@[from as int]@);
            assert(t.drop_first() =~= strs_view(names@).subrange(from + 1, names@.len() as int));
        }
        with_names_text(text(names[from].as_str()), names, from + 1)
    } else {
        with_names_text(trim_end(base), names, from)
    };
    let n = path.unicode_len();
    if n > 0 && path.get_char(n - 1) == '/' {
        let ghost before = out@;
        out.push('/');
        proof {
            assert(out@ =~= before + seq!['/']);
        }
    } else {
        proof {
            assert(out@ + Seq::<char>::empty() =~= out@);
        }
    }
    out
}

/// Reads a path that starts with `~` below the home directory (see `expand_spec`).
pub fn expand_path(path: &str, home: Option<&str>) -> (res: String)
    ensures
        res@ == expand_spec(path@, match home {
            Some(h) => Some(h@),
            None => None,
        }),
{
    let names = segments_of(path);
    let absolute = path.unicode_len() > 0 && path.get_char(0) == '/';
    if !absolute && names.len() > 0 && crate::vars::str_eq(names[0].as_str(), "~") {
        proof {
            reveal_strlit("~");
            assert(strs_view(names@).drop_first() =~= strs_view(names@).subrange(1, names@.len() as int));
            assert(("~"@ =~= seq!['~']));
        }
        match home {
            Some(h) => below_text(h, &names, 1, path),
            None => {
                proof {
                    reveal_strlit("/");
                    assert("/"@ =~= seq!['/']);
                }
                below_text("/", &names, 1, path)
            },
        }
    } else {
        proof {
            reveal_strlit("~");
            if !absolute && names.len() > 0 {
                assert(names@[0]@ != "~"@);
                assert("~"@ =~= seq!['~']);
            }
        }
        text(path)
    }
}

fn same_prefix(names: &Vec<String>, prefix: &Vec<String>) -> (res: bool)
    ensures
        res == (prefix@.len() <= names@.len() && strs_view(names@).subrange(0, prefix@.len() as int)
            == strs_view(prefix@)),
{
    if prefix.len() > names.len() {
        return false;
    }
    let mut i: usize = 0;
    while i < prefix.len()
        invariant
            i <= prefix@.len() <= names@.len(),
            forall|j: int| 0 <= j < i ==> names@[j]@ == prefix@[j]@,
        decreases prefix@.len() - i,
    {
        if !crate::vars::str_eq(names[i].as_str(), prefix[i].as_str()) {
            proof {
                assert(strs_view(names@).subrange(0, prefix@.len() as int)[i as int] != strs_view(prefix@)[i as int]);
            }
            return false;
        }
        i = i + 1;
    }
    proof {
        assert(strs_view(names@).subrange(0, prefix@.len() as int) =~= strs_view(prefix@));
    }
    true
}

/// Writes a path below the home directory below `~` (see `condense_spec`).
pub fn condense_path(path: &str, home: Option<&str>) -> (res: String)
    ensures
        res@ == condense_spec(path@, match home {
            Some(h) => Some(h@),
            None => None,
        }),
{
    let h = match home {
        None => return text(path),
        Some(h) => h,
    };
    let names = segments_of(path);
    let hn = segments_of(h);
    let pa = path.unicode_len() > 0 && path.get_char(0) == '/';
    let ha = h.unicode_len() > 0 && h.get_char(0) == '/';
    if pa == ha && same_prefix(&names, &hn) {
        proof {
            reveal_strlit("~");
            assert("~"@ =~= seq!['~']);
        }
        below_text("~", &names, hn.len(), path)
    } else {
        text(path)
    }
}


// ---------------------------------------------------------------------
// Writing a path below `~` undoes reading it below the home directory.
// ---------------------------------------------------------------------

/// A name of a path: not empty, and without a slash.
pub open spec fn is_name(n: Seq<char>) -> bool {
    n.len() > 0 && !n.contains('/')
}

proof fn lemma_names_split(x: Seq<char>, y: Seq<char>, cur: Seq<char>)
    ensures
        names_from(x + seq!['/'] + y, cur) == names_from(x, cur) + names_from(y, seq![]),
    decreases x.len(),
{
    let s = x + seq!['/'] + y;
    if x.len() == 0 {
        assert(s =~= seq!['/'] + y);
        assert(s.drop_first() =~= y);
    } else {
        assert(s.drop_first() =~= x.drop_first() + seq!['/'] + y);
        assert(s[0] == x[0]);
        if x[0] == '/' {
            lemma_names_split(x.drop_first(), y, seq![]);
        } else {
            lemma_names_split(x.drop_first(), y, cur.push(x[0]));
        }
    }
}

proof fn lemma_names_of_name(n: Seq<char>, cur: Seq<char>)
    requires
        !n.contains('/'),
        cur.len() + n.len() > 0,
    ensures
        names_from(n, cur) == seq![cur + n],
    decreases n.len(),
{
    if n.len() == 0 {
        assert(cur + n =~= cur);
    } else {
        assert(n[0] != '/') by {
            assert(n.contains(n[0]));
        }
        assert(!n.drop_first().contains('/')) by {
            if n.drop_first().contains('/') {
                let j = choose|j: int| 0 <= j < n.drop_first().len() && n.drop_first()[j] == '/';
                assert(n[j + 1] == '/');
            }
        }
        lemma_names_of_name(n.drop_first(), cur.push(n[0]));
        assert(cur.push(n[0]) + n.drop_first() =~= cur + n);
    }
}

proof fn lemma_names_are_names(s: Seq<char>, cur: Seq<char>)
    requires
        !cur.contains('/'),
    ensures
        forall|i: int| 0 <= i < names_from(s, cur).len() ==> is_name(#[trigger] names_from(s, cur)[i]),
    decreases s.len(),
{
    let c: Seq<Seq<char>> = if cur.len() > 0 {
        seq![cur]
    } else {
        seq![]
    };
    assert(forall|i: int| 0 <= i < c.len() ==> is_name(#[trigger] c[i])) by {
        if cur.len() > 0 {
            assert(c[0] == cur);
        }
    }
    if s.len() == 0 {
        assert(names_from(s, cur) == c);
    } else if s[0] == '/' {
        lemma_names_are_names(s.drop_first(), seq![]);
        let r = names_from(s.drop_first(), seq![]);
        assert(names_from(s, cur) == c + r);
        assert forall|i: int| 0 <= i < (c + r).len() implies is_name(#[trigger] (c + r)[i]) by {
            if i >= c.len() {
                assert((c + r)[i] == r[i - c.len()]);
            } else {
                assert((c + r)[i] == c[i]);
            }
        }
    } else {
        assert(!cur.push(s[0]).contains('/')) by {
            if cur.push(s[0]).contains('/') {
                let j = choose|j: int| 0 <= j < cur.push(s[0]).len() && cur.push(s[0])[j] == '/';
                if j < cur.len() {
                    assert(cur[j] == '/');
                }
            }
        }
        lemma_names_are_names(s.drop_first(), cur.push(s[0]));
        assert(names_from(s, cur) == names_from(s.drop_first(), cur.push(s[0])));
    }
}

proof fn lemma_segments_with_names(base: Seq<char>, names: Seq<Seq<char>>)
    requires
        forall|i: int| 0 <= i < names.len() ==> is_name(#[trigger] names[i]),
    ensures
        segments(with_names(base, names)) == segments(base) + names,
    decreases names.len(),
{
    if names.len() == 0 {
        assert(segments(base) + names =~= segments(base));
    } else {
        assert(is_name(names[0]));
        lemma_names_split(base, names[0], seq![]);
        lemma_names_of_name(names[0], seq![]);
        assert(seq![] + names[0] =~= names[0]);
        assert forall|i: int| 0 <= i < names.drop_first().len() implies is_name(#[trigger] names.drop_first()[i]) by {
            assert(names.drop_first()[i] == names[i + 1]);
        }
        lemma_segments_with_names(base + seq!['/'] + names[0], names.drop_first());
        assert(segments(base) + seq![names[0]] + names.drop_first() =~= segments(base) + names);
    }
}

proof fn lemma_segments_slash(x: Seq<char>)
    ensures
        segments(x + seq!['/']) == segments(x),
{
    lemma_names_split(x, seq![], seq![]);
    assert(x + seq!['/'] + Seq::<char>::empty() =~= x + seq!['/']);
    assert(segments(x) + names_from(Seq::<char>::empty(), seq![]) =~= segments(x));
}

proof fn lemma_trim_end(h: Seq<char>)
    ensures
        segments(trim_end_slashes(h)) == segments(h),
        trim_end_slashes(h).len() <= h.len(),
        trim_end_slashes(h) == h.subrange(0, trim_end_slashes(h).len() as int),
        h.len() > 0 && trim_end_slashes(h).len() == 0 ==> h[0] == '/',
    decreases h.len(),
{
    if h.len() > 0 && h.last() == '/' {
        lemma_trim_end(h.drop_last());
        if h.drop_last().len() > 0 {
            assert(h.drop_last()[0] == h[0]);
        }
        lemma_segments_slash(h.drop_last());
        assert(h.drop_last() + seq!['/'] =~= h);
        let t = trim_end_slashes(h.drop_last());
        assert(h.drop_last().subrange(0, t.len() as int) =~= h.subrange(0, t.len() as int));
    } else {
        assert(h.subrange(0, h.len() as int) =~= h);
    }
}

proof fn lemma_with_names_shape(base: Seq<char>, names: Seq<Seq<char>>)
    requires
        names.len() > 0,
        forall|i: int| 0 <= i < names.len() ==> is_name(#[trigger] names[i]),
    ensures
        with_names(base, names).len() > base.len(),
        with_names(base, names).subrange(0, base.len() as int) == base,
        base.len() == 0 ==> with_names(base, names)[0] == '/',
        with_names(base, names).last() != '/',
    decreases names.len(),
{
    let b2 = base + seq!['/'] + names[0];
    assert(is_name(names[0]));
    assert(with_names(base, names) == with_names(b2, names.drop_first()));
    if names.len() == 1 {
        assert(names.drop_first().len() == 0);
        assert(with_names(b2, names.drop_first()) == b2);
        assert(b2.subrange(0, base.len() as int) =~= base);
        assert(b2.last() == names[0].last());
        assert(names[0].contains(names[0].last()));
    } else {
        assert forall|i: int| 0 <= i < names.drop_first().len() implies is_name(#[trigger] names.drop_first()[i]) by {
            assert(names.drop_first()[i] == names[i + 1]);
        }
        lemma_with_names_shape(b2, names.drop_first());
        let w = with_names(b2, names.drop_first());
        assert(w.subrange(0, base.len() as int) =~= w.subrange(0, b2.len() as int).subrange(0, base.len() as int));
        assert(b2.subrange(0, base.len() as int) =~= base);
        if base.len() == 0 {
            assert(w[0] == w.subrange(0, b2.len() as int)[0]);
        }
    }
}

proof fn lemma_name_alone(names: Seq<Seq<char>>, path: Seq<char>)
    requires
        names.len() > 0,
        forall|i: int| 0 <= i < names.len() ==> is_name(#[trigger] names[i]),
    ensures
        segments(below(seq![], names, path)) == names,
        !is_absolute(below(seq![], names, path)),
        ends_with_slash(below(seq![], names, path)) == ends_with_slash(path),
{
    let n0 = names[0];
    let rest = names.drop_first();
    assert(is_name(n0));
    assert forall|i: int| 0 <= i < rest.len() implies is_name(#[trigger] rest[i]) by {
        assert(rest[i] == names[i + 1]);
    }
    lemma_names_of_name(n0, seq![]);
    assert(seq![] + n0 =~= n0);
    lemma_segments_with_names(n0, rest);
    assert(seq![n0] + rest =~= names);
    let w = with_names(n0, rest);
    assert(n0[0] != '/') by {
        assert(n0.contains(n0[0]));
    }
    assert(n0.last() != '/') by {
        assert(n0.contains(n0.last()));
    }
    if rest.len() > 0 {
        lemma_with_names_shape(n0, rest);
        assert(w[0] == w.subrange(0, n0.len() as int)[0]);
    } else {
        assert(w == n0);
    }
    if ends_with_slash(path) {
        assert(below(seq![], names, path) == w + seq!['/']);
        lemma_segments_slash(w);
        assert((w + seq!['/'])[0] == w[0]);
    } else {
        assert(below(seq![], names, path) =~= w);
    }
}

proof fn lemma_below_tilde(names: Seq<Seq<char>>, path: Seq<char>)
    requires
        forall|i: int| 0 <= i < names.len() ==> is_name(#[trigger] names[i]),
    ensures
        segments(below(seq!['~'], names, path)) == seq![seq!['~']] + names,
        !is_absolute(below(seq!['~'], names, path)),
{
    let tl = seq!['~'];
    lemma_names_of_name(tl, seq![]);
    assert(seq![] + tl =~= tl);
    assert(!tl.contains('/')) by {
        if tl.contains('/') {
            let j = choose|j: int| 0 <= j < tl.len() && tl[j] == '/';
            assert(tl[j] == '~');
        }
    }
    if names.len() == 0 {
        assert(seq![tl] + names =~= seq![tl]);
    } else {
        lemma_trim_end(tl);
        assert(trim_end_slashes(tl) == tl);
        let w = with_names(tl, names);
        lemma_segments_with_names(tl, names);
        lemma_with_names_shape(tl, names);
        assert(w[0] == w.subrange(0, 1)[0]);
        if ends_with_slash(path) {
            lemma_segments_slash(w);
            assert((w + seq!['/'])[0] == w[0]);
        } else {
            assert(w + Seq::<char>::empty() =~= w);
        }
    }
}

proof fn lemma_condense_below(e: Seq<char>, home: Seq<char>, names: Seq<Seq<char>>, path: Seq<char>)
    requires
        is_absolute(e) == is_absolute(home),
        segments(e) == segments(home) + names,
        names.len() > 0 ==> ends_with_slash(e) == ends_with_slash(path),
    ensures
        condense_spec(e, Some(home)) == below(seq!['~'], names, path),
{
    let hn = segments(home);
    assert((hn + names).subrange(0, hn.len() as int) =~= hn);
    assert((hn + names).subrange(hn.len() as int, (hn + names).len() as int) =~= names);
    assert(condense_spec(e, Some(home)) == below(seq!['~'], names, e));
}

/// Writing below `~` undoes reading below the home directory: a path that
/// starts with the name `~`, read below a home directory and written back,
/// is `~` followed by the path's other names (keeping a final slash), so
/// the same path, name for name.
pub proof fn law_condense_undoes_expand(path: Seq<char>, home: Seq<char>)
    requires
        !is_absolute(path),
        segments(path).len() > 0,
        segments(path)[0] == seq!['~'],
    ensures
        condense_spec(expand_spec(path, Some(home)), Some(home)) == below(
            seq!['~'],
            segments(path).drop_first(),
            path,
        ),
        segments(condense_spec(expand_spec(path, Some(home)), Some(home))) == segments(path),
        !is_absolute(condense_spec(expand_spec(path, Some(home)), Some(home))),
{
    let names = segments(path).drop_first();
    let e = expand_spec(path, Some(home));
    lemma_names_are_names(path, seq![]);
    assert forall|i: int| 0 <= i < names.len() implies is_name(#[trigger] names[i]) by {
        assert(names[i] == segments(path)[i + 1]);
    }
    lemma_below_tilde(names, path);
    assert(seq![seq!['~']] + names =~= segments(path));
    assert(e == below(home, names, path));
    lemma_trim_end(home);
    let t = trim_end_slashes(home);
    if names.len() == 0 {
        assert(e == home);
        assert(segments(home) + names =~= segments(home));
        lemma_condense_below(e, home, names, path);
    } else if home.len() == 0 {
        assert(segments(home) =~= Seq::<Seq<char>>::empty());
        lemma_name_alone(names, path);
        assert(segments(home) + names =~= names);
        lemma_condense_below(e, home, names, path);
    } else {
        let w = with_names(t, names);
        lemma_segments_with_names(t, names);
        lemma_with_names_shape(t, names);
        if ends_with_slash(path) {
            assert(e == w + seq!['/']);
            lemma_segments_slash(w);
            assert((w + seq!['/'])[0] == w[0]);
        } else {
            assert(e =~= w);
        }
        assert(is_absolute(e) == is_absolute(home)) by {
            if t.len() > 0 {
                assert(w[0] == w.subrange(0, t.len() as int)[0]);
                assert(t[0] == home[0]);
            } else {
                assert(t == home.subrange(0, 0));
            }
        }
        assert(segments(e) == segments(home) + names);
        assert(ends_with_slash(e) == ends_with_slash(path));
        lemma_condense_below(e, home, names, path);
    }
}

} // verus!
