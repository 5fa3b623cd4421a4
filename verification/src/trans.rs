use vstd::prelude::*;

verus! {

// ---------------------------------------------------------------------
// The words of a script line.
// ---------------------------------------------------------------------

/// Whether `c` may stand in a name: no blank, comma, quote or parenthesis.
pub open spec fn is_name_char(c: char) -> bool {
    !(c == ' ' || c == '\t' || c == '\n' || c == '\r' || c == ',' || c == '"' || c == '(' || c == ')')
}

/// Whether `c` is white space.
pub open spec fn is_space(c: char) -> bool {
    c == ' ' || c == '\t' || c == '\n' || c == '\u{b}' || c == '\u{c}' || c == '\r' || c == '\u{85}' || c
        == '\u{a0}' || c == '\u{1680}' || ('\u{2000}' <= c && c <= '\u{200a}') || c == '\u{2028}' || c == '\u{2029}'
        || c == '\u{202f}' || c == '\u{205f}' || c == '\u{3000}'
}

/// The name characters at the start of `s`.
pub open spec fn name_prefix(s: Seq<char>) -> Seq<char>
    decreases s.len(),
{
    if s.len() > 0 && is_name_char(s[0]) {
        seq![s[0]] + name_prefix(s.drop_first())
    } else {
        seq![]
    }
}

/// The last colon of `r` at an index from 1 to `k`.
pub open spec fn colon_upto(r: Seq<char>, k: int) -> Option<int>
    decreases k,
{
    if k < 1 {
        None
    } else if k < r.len() && r[k] == ':' {
        Some(k)
    } else {
        colon_upto(r, k - 1)
    }
}

/// A name `path:name` split at its last colon that has something on both sides.
pub open spec fn split_colon(r: Seq<char>) -> Option<(Seq<char>, Seq<char>)> {
    match colon_upto(r, r.len() - 2) {
        Some(p) => Some((r.subrange(0, p), r.subrange(p + 1, r.len() as int))),
        None => None,
    }
}

/// The first `$path:name` of `v` from index `i` on.
pub open spec fn first_path_var(v: Seq<char>, i: int) -> Option<(Seq<char>, Seq<char>)>
    decreases v.len() - i,
{
    if i < 0 || i >= v.len() {
        None
    } else if v[i] == '$' && split_colon(name_prefix(v.subrange(i + 1, v.len() as int))) is Some {
        split_colon(name_prefix(v.subrange(i + 1, v.len() as int)))
    } else {
        first_path_var(v, i + 1)
    }
}

/// The first `$name` of `v` from index `i` on.
pub open spec fn first_var(v: Seq<char>, i: int) -> Option<Seq<char>>
    decreases v.len() - i,
{
    if i < 0 || i >= v.len() {
        None
    } else if v[i] == '$' && name_prefix(v.subrange(i + 1, v.len() as int)).len() > 0 {
        Some(name_prefix(v.subrange(i + 1, v.len() as int)))
    } else {
        first_var(v, i + 1)
    }
}

/// The number of white space characters at the start of `s`.
pub open spec fn lead(s: Seq<char>) -> nat
    decreases s.len(),
{
    if s.len() > 0 && is_space(s[0]) {
        1 + lead(s.drop_first())
    } else {
        0
    }
}

/// The number of white space characters at the end of `s`.
pub open spec fn trail(s: Seq<char>) -> nat
    decreases s.len(),
{
    if s.len() > 0 && is_space(s.last()) {
        1 + trail(s.drop_last())
    } else {
        0
    }
}

/// The number of name characters at the end of `s`.
pub open spec fn name_suffix_len(s: Seq<char>) -> nat
    decreases s.len(),
{
    if s.len() > 0 && is_name_char(s.last()) {
        1 + name_suffix_len(s.drop_last())
    } else {
        0
    }
}

/// Whether every character of `s` is white space.
pub open spec fn all_space(s: Seq<char>) -> bool {
    forall|i: int| 0 <= i < s.len() ==> is_space(s[i])
}

/// The index of the first `c` in `s` from index `i` on.
pub open spec fn find_from(s: Seq<char>, c: char, i: int) -> Option<int>
    decreases s.len() - i,
{
    if i < 0 || i >= s.len() {
        None
    } else if s[i] == c {
        Some(i)
    } else {
        find_from(s, c, i + 1)
    }
}

/// The index of the last `c` in `s` from index `lo` up to index `k`.
pub open spec fn find_last(s: Seq<char>, c: char, lo: int, k: int) -> Option<int>
    decreases k - lo,
{
    if k < lo || k < 0 || k >= s.len() {
        None
    } else if s[k] == c {
        Some(k)
    } else if k == lo {
        None
    } else {
        find_last(s, c, lo, k - 1)
    }
}

pub proof fn lemma_name_prefix(s: Seq<char>)
    ensures
        name_prefix(s).len() <= s.len(),
        name_prefix(s) == s.subrange(0, name_prefix(s).len() as int),
        s.len() > 0 && is_name_char(s[0]) ==> name_prefix(s).len() >= 1,
        forall|i: int| 0 <= i < name_prefix(s).len() ==> is_name_char(#[trigger] s[i]),
        name_prefix(s).len() < s.len() ==> !is_name_char(s[name_prefix(s).len() as int]),
    decreases s.len(),
{
    if s.len() > 0 && is_name_char(s[0]) {
        lemma_name_prefix(s.drop_first());
        let t = s.drop_first();
        assert(name_prefix(s) =~= seq![s[0]] + name_prefix(t));
        assert forall|i: int| 0 <= i < name_prefix(s).len() implies is_name_char(#[trigger] s[i]) by {
            if i > 0 {
                assert(s[i] == t[i - 1]);
            }
        }
        assert(name_prefix(s) =~= s.subrange(0, name_prefix(s).len() as int));
        if name_prefix(s).len() < s.len() {
            assert(s[name_prefix(s).len() as int] == t[name_prefix(t).len() as int]);
        }
    } else {
        assert(name_prefix(s) =~= s.subrange(0, 0));
    }
}

pub proof fn lemma_find_from(s: Seq<char>, c: char, i: int)
    requires
        0 <= i,
    ensures
        match find_from(s, c, i) {
            Some(k) => i <= k < s.len() && s[k] == c && forall|j: int| i <= j < k ==> s[j] != c,
            None => forall|j: int| i <= j < s.len() ==> s[j] != c,
        },
    decreases s.len() - i,
{
    if i < s.len() && s[i] != c {
        lemma_find_from(s, c, i + 1);
    }
}

pub proof fn lemma_find_last(s: Seq<char>, c: char, lo: int, k: int)
    ensures
        match find_last(s, c, lo, k) {
            Some(q) => lo <= q <= k && 0 <= q < s.len() && s[q] == c,
            None => true,
        },
    decreases k - lo,
{
    if !(k < lo || k < 0 || k >= s.len()) && s[k] != c && k != lo {
        lemma_find_last(s, c, lo, k - 1);
    }
}

pub proof fn lemma_trail(s: Seq<char>)
    ensures
        trail(s) <= s.len(),
    decreases s.len(),
{
    if s.len() > 0 && is_space(s.last()) {
        lemma_trail(s.drop_last());
    }
}

pub proof fn lemma_name_suffix_len(s: Seq<char>)
    ensures
        name_suffix_len(s) <= s.len(),
    decreases s.len(),
{
    if s.len() > 0 && is_name_char(s.last()) {
        lemma_name_suffix_len(s.drop_last());
    }
}

pub proof fn lemma_arg_token(x: Seq<char>)
    ensures
        arg_token(x) matches Some((tok, rest)) ==> tok.len() >= 1 && tok.len() + rest.len() == x.len(),
{
    if x.len() > 0 {
        if x[0] == '"' && find_last(x, '"', 2, x.len() - 1) is Some {
            lemma_find_last(x, '"', 2, x.len() - 1);
        } else if is_name_char(x[0]) {
            lemma_name_prefix(x);
        }
    }
}

/// The values of a call's arguments, read as `"text"` (up to the last
/// quote) or a name; anything else between them is passed over.
pub open spec fn arg_token(x: Seq<char>) -> Option<(Seq<char>, Seq<char>)> {
    if x.len() == 0 {
        None
    } else if x[0] == '"' && find_last(x, '"', 2, x.len() - 1) is Some {
        let q = find_last(x, '"', 2, x.len() - 1)->Some_0;
        Some((x.subrange(0, q + 1), x.subrange(q + 1, x.len() as int)))
    } else if is_name_char(x[0]) {
        let r = name_prefix(x);
        Some((r, x.subrange(r.len() as int, x.len() as int)))
    } else {
        None
    }
}

/// `parts` with `sep` between each two of them.
pub open spec fn joined_with(parts: Seq<Seq<char>>, sep: Seq<char>) -> Seq<char>
    decreases parts.len(),
{
    if parts.len() == 0 {
        seq![]
    } else if parts.len() == 1 {
        parts[0]
    } else {
        parts[0] + sep + joined_with(parts.drop_first(), sep)
    }
}

/// What a value of a script line becomes in Rust: a quoted string, an
/// environment variable `$env:name`, a variable `$name`, or a call
/// `name(args)` of a shell function; anything else becomes nothing.
/// `None` for a variable of a path other than `env`.
pub open spec fn rvalue_spec(v: Seq<char>) -> Option<Seq<char>>
    decreases v.len(), 0int,
{
    let a = lead(v) as int;
    let b = find_from(v, '(', 0);
    let e = v.len() - trail(v) - 1;
    if a < v.len() && v[a] == '"' && find_from(v, '"', a + 1) is Some && all_space(
        v.subrange(find_from(v, '"', a + 1)->Some_0 + 1, v.len() as int),
    ) {
        Some(v.subrange(a, find_from(v, '"', a + 1)->Some_0 + 1) + ".to_string()"@)
    } else if a < v.len() && v[a] == '$' && v.len() - a - 1 - trail(v.subrange(a + 1, v.len() as int))
        <= name_prefix(v.subrange(a + 1, v.len() as int)).len() && split_colon(
        name_prefix(v.subrange(a + 1, v.len() as int)),
    ) is Some {
        let (path, name) = split_colon(name_prefix(v.subrange(a + 1, v.len() as int)))->Some_0;
        if path == "env"@ {
            Some("sgetenv(\""@ + name + "\")"@)
        } else {
            None
        }
    } else if a < v.len() && v[a] == '$' && v.len() - a - 1 - trail(v.subrange(a + 1, v.len() as int))
        <= name_prefix(v.subrange(a + 1, v.len() as int)).len() && name_prefix(
        v.subrange(a + 1, v.len() as int),
    ).len() > 0 {
        Some("WashEnv::getv(env, \""@ + name_prefix(v.subrange(a + 1, v.len() as int)) + "\".to_string())"@)
    } else if b is Some && name_suffix_len(v.subrange(0, b->Some_0)) > 0 && all_space(
        v.subrange(0, b->Some_0 - name_suffix_len(v.subrange(0, b->Some_0))),
    ) && b->Some_0 < e && v[e] == ')' && find_from(v.subrange(b->Some_0 + 1, e), '\n', 0) is None {
        let bb = b->Some_0;
        proof {
            lemma_find_from(v, '(', 0);
            lemma_trail(v);
        }
        let name = v.subrange(bb - name_suffix_len(v.subrange(0, bb)), bb);
        match args_spec(v.subrange(bb + 1, e)) {
            Some(args) => Some(
                "WashEnv::getf(env, \""@ + name + "\".to_string())(&vec!["@ + joined_with(args, ", "@) + "], env);"@,
            ),
            None => None,
        }
    } else {
        Some(seq![])
    }
}

/// The values of the arguments in `x` (see `arg_token`), each as
/// `rvalue_spec` makes it.
pub open spec fn args_spec(x: Seq<char>) -> Option<Seq<Seq<char>>>
    decreases x.len(), 1int,
{
    if x.len() == 0 {
        Some(seq![])
    } else {
        proof {
            lemma_arg_token(x);
        }
        match arg_token(x) {
            None => args_spec(x.drop_first()),
            Some((tok, rest)) => match rvalue_spec(tok) {
                None => None,
                Some(t) => match args_spec(rest) {
                    None => None,
                    Some(ts) => Some(seq![t] + ts),
                },
            },
        }
    }
}

/// What the left side of an assignment becomes in Rust: the text before
/// and after the value, for `$env:name` (setting the environment) or
/// `$name` (setting a variable); nothing for any other left side. `None`
/// for a variable of a path other than `env`.
pub open spec fn lvalue_spec(v: Seq<char>) -> Option<Seq<Seq<char>>> {
    match first_path_var(v, 0) {
        Some((path, name)) => if path == "env"@ {
            Some(seq!["std::os::setenv(\""@ + name + "\", "@, ".as_slice());"@])
        } else {
            None
        },
        None => match first_var(v, 0) {
            Some(name) => Some(seq!["env.insv(\""@ + name + "\".to_string(), "@, ");"@]),
            None => Some(seq![]),
        },
    }
}

/// What a script line becomes in Rust: an assignment (split at its first
/// `=`) puts the value between the two parts of its left side; any other
/// line is a value. `None` for a variable of a path other than `env`.
pub open spec fn line_spec(line: Seq<char>) -> Option<Seq<char>> {
    match find_from(line, '=', 0) {
        Some(i) => match lvalue_spec(line.subrange(0, i)) {
            None => None,
            Some(parts) => match rvalue_spec(line.subrange(i + 1, line.len() as int)) {
                None => None,
                Some(r) => Some(joined_with(parts, r)),
            },
        },
        None => rvalue_spec(line),
    }
}

// ---------------------------------------------------------------------
// Reading the words.
// ---------------------------------------------------------------------

fn chars_of(s: &str) -> (res: Vec<char>)
    ensures
        res@ == s@,
{
    let n = s.unicode_len();
    let mut out: Vec<char> = Vec::new();
    let mut i: usize = 0;
    while i < n
        invariant
            i <= n,
            n == s@.len(),
            out@ == s@.subrange(0, i as int),
        decreases n - i,
    {
        out.push(s.get_char(i));
        proof {
            assert(out@ =~= s@.subrange(0, i + 1));
        }
        i = i + 1;
    }
    proof {
        assert(s@.subrange(0, n as int) =~= s@);
    }
    out
}

fn string_of(v: &Vec<char>) -> (res: String)
    ensures
        res@ == v@,
{
    let mut out = String::new();
    let mut i: usize = 0;
    while i < v.len()
        invariant
            i <= v@.len(),
            out@ == v@.subrange(0, i as int),
        decreases v@.len() - i,
    {
        out.push(v[i]);
        proof {
            assert(out@ =~= v@.subrange(0, i + 1));
        }
        i = i + 1;
    }
    proof {
        assert(v@.subrange(0, v@.len() as int) =~= v@);
    }
    out
}

fn slice_of(v: &Vec<char>, lo: usize, hi: usize) -> (res: Vec<char>)
    requires
        lo <= hi <= v@.len(),
    ensures
        res@ == v@.subrange(lo as int, hi as int),
{
    let mut out: Vec<char> = Vec::new();
    let mut i = lo;
    while i < hi
        invariant
            lo <= i <= hi,
            hi <= v@.len(),
            out@ == v@.subrange(lo as int, i as int),
        decreases hi - i,
    {
        out.push(v[i]);
        proof {
            assert(out@ =~= v@.subrange(lo as int, i + 1));
        }
        i = i + 1;
    }
    out
}

fn append_chars(out: &mut Vec<char>, s: &str)
    ensures
        final(out)@ == old(out)@ + s@,
{
    let n = s.unicode_len();
    let mut i: usize = 0;
    while i < n
        invariant
            i <= n,
            n == s@.len(),
            out@ == old(out)@ + s@.subrange(0, i as int),
        decreases n - i,
    {
        out.push(s.get_char(i));
        proof {
            assert(out@ =~= old(out)@ + s@.subrange(0, i + 1));
        }
        i = i + 1;
    }
    proof {
        assert(s@.subrange(0, n as int) =~= s@);
    }
}

fn append_vec(out: &mut Vec<char>, s: &Vec<char>)
    ensures
        final(out)@ == old(out)@ + s@,
{
    let mut i: usize = 0;
    while i < s.len()
        invariant
            i <= s@.len(),
            out@ == old(out)@ + s@.subrange(0, i as int),
        decreases s@.len() - i,
    {
        out.push(s[i]);
        proof {
            assert(out@ =~= old(out)@ + s@.subrange(0, i + 1));
        }
        i = i + 1;
    }
    proof {
        assert(s@.subrange(0, s@.len() as int) =~= s@);
    }
}

fn space_char(c: char) -> (res: bool)
    ensures
        res == is_space(c),
{
    c == ' ' || c == '\t' || c == '\n' || c == '\u{b}' || c == '\u{c}' || c == '\r' || c == '\u{85}' || c
        == '\u{a0}' || c == '\u{1680}' || ('\u{2000}' <= c && c <= '\u{200a}') || c == '\u{2028}' || c == '\u{2029}'
        || c == '\u{202f}' || c == '\u{205f}' || c == '\u{3000}'
}

fn name_char(c: char) -> (res: bool)
    ensures
        res == is_name_char(c),
{
    !(c == ' ' || c == '\t' || c == '\n' || c == '\r' || c == ',' || c == '"' || c == '(' || c == ')')
}

fn lead_len(v: &Vec<char>) -> (res: usize)
    ensures
        res == lead(v@),
{
    let mut i: usize = 0;
    proof {
        assert(v@.subrange(0, v@.len() as int) =~= v@);
    }
    while i < v.len() && space_char(v[i])
        invariant
            i <= v@.len(),
            lead(v@) == i + lead(v@.subrange(i as int, v@.len() as int)),
        decreases v@.len() - i,
    {
        proof {
            let t = v@.subrange(i as int, v@.len() as int);
            assert(t[0] == v@[i as int]);
            assert(t.drop_first() =~= v@.subrange(i + 1, v@.len() as int));
        }
        i = i + 1;
    }
    proof {
        let t = v@.subrange(i as int, v@.len() as int);
        if i < v@.len() {
            assert(t[0] == v@[i as int]);
        }
    }
    i
}

fn trail_len(v: &Vec<char>) -> (res: usize)
    ensures
        res == trail(v@),
        res <= v@.len(),
{
    let mut k: usize = v.len();
    proof {
        assert(v@.subrange(0, v@.len() as int) =~= v@);
    }
    while k > 0 && space_char(v[k - 1])
        invariant
            k <= v@.len(),
            trail(v@) == (v@.len() - k) + trail(v@.subrange(0, k as int)),
        decreases k,
    {
        proof {
            let t = v@.subrange(0, k as int);
            assert(t.last() == v@[k - 1]);
            assert(t.drop_last() =~= v@.subrange(0, k - 1));
        }
        k = k - 1;
    }
    proof {
        let t = v@.subrange(0, k as int);
        if k > 0 {
            assert(t.last() == v@[k - 1]);
        }
    }
    v.len() - k
}

/// The length of `name_prefix(v[from..])`.
fn name_prefix_len(v: &Vec<char>, from: usize) -> (res: usize)
    requires
        from <= v@.len(),
    ensures
        res == name_prefix(v@.subrange(from as int, v@.len() as int)).len(),
        from + res <= v@.len(),
{
    let ghost whole = v@.subrange(from as int, v@.len() as int);
    let mut i = from;
    proof {
        assert(whole =~= v@.subrange(from as int, v@.len() as int));
    }
    while i < v.len() && name_char(v[i])
        invariant
            from <= i <= v@.len(),
            whole == v@.subrange(from as int, v@.len() as int),
            name_prefix(whole).len() == (i - from) + name_prefix(v@.subrange(i as int, v@.len() as int)).len(),
        decreases v@.len() - i,
    {
        proof {
            let t = v@.subrange(i as int, v@.len() as int);
            assert(t[0] == v@[i as int]);
            assert(t.drop_first() =~= v@.subrange(i + 1, v@.len() as int));
        }
        i = i + 1;
    }
    proof {
        let t = v@.subrange(i as int, v@.len() as int);
        if i < v@.len() {
            assert(t[0] == v@[i as int]);
        }
    }
    i - from
}

/// The length of `name_suffix_len(v[..to])`.
fn name_suffix(v: &Vec<char>, to: usize) -> (res: usize)
    requires
        to <= v@.len(),
    ensures
        res == name_suffix_len(v@.subrange(0, to as int)),
        res <= to,
{
    let mut k = to;
    while k > 0 && name_char(v[k - 1])
        invariant
            k <= to <= v@.len(),
            name_suffix_len(v@.subrange(0, to as int)) == (to - k) + name_suffix_len(v@.subrange(0, k as int)),
        decreases k,
    {
        proof {
            let t = v@.subrange(0, k as int);
            assert(t.last() == v@[k - 1]);
            assert(t.drop_last() =~= v@.subrange(0, k - 1));
        }
        k = k - 1;
    }
    proof {
        let t = v@.subrange(0, k as int);
        if k > 0 {
            assert(t.last() == v@[k - 1]);
        }
    }
    to - k
}

/// The first `c` in `v` from index `i` on (see `find_from`).
fn find_char(v: &Vec<char>, c: char, i: usize) -> (res: Option<usize>)
    ensures
        match res {
            Some(k) => find_from(v@, c, i as int) == Some(k as int),
            None => find_from(v@, c, i as int) is None,
        },
{
    let mut k = i;
    while k < v.len()
        invariant
            i <= k,
            find_from(v@, c, i as int) == find_from(v@, c, k as int),
        decreases v@.len() - k,
    {
        if v[k] == c {
            return Some(k);
        }
        k = k + 1;
    }
    None
}

/// The last `c` in `v` from index `lo` up to index `k` (see `find_last`).
fn find_last_char(v: &Vec<char>, c: char, lo: usize, k: usize) -> (res: Option<usize>)
    ensures
        match res {
            Some(q) => find_last(v@, c, lo as int, k as int) == Some(q as int),
            None => find_last(v@, c, lo as int, k as int) is None,
        },
{
    if k >= v.len() || k < lo {
        return None;
    }
    let mut j = k;
    loop
        invariant
            lo <= j <= k < v@.len(),
            find_last(v@, c, lo as int, k as int) == find_last(v@, c, lo as int, j as int),
        decreases j,
    {
        if v[j] == c {
            return Some(j);
        }
        if j == lo {
            return None;
        }
        j = j - 1;
    }
}

/// Whether `v[lo..hi]` is all white space.
fn all_spaces(v: &Vec<char>, lo: usize, hi: usize) -> (res: bool)
    requires
        lo <= hi <= v@.len(),
    ensures
        res == all_space(v@.subrange(lo as int, hi as int)),
{
    let mut i = lo;
    while i < hi
        invariant
            lo <= i <= hi <= v@.len(),
            forall|j: int| lo <= j < i ==> is_space(v@[j]),
        decreases hi - i,
    {
        if !space_char(v[i]) {
            proof {
                assert(v@.subrange(lo as int, hi as int)[i - lo] == v@[i as int]);
            }
            return false;
        }
        i = i + 1;
    }
    proof {
        assert forall|j: int| 0 <= j < hi - lo implies is_space(#[trigger] v@.subrange(lo as int, hi as int)[j]) by {
            assert(v@.subrange(lo as int, hi as int)[j] == v@[lo + j]);
        }
    }
    true
}

/// `r` split at its last colon with something on both sides (see `split_colon`).
fn colon_split(r: &Vec<char>) -> (res: Option<(Vec<char>, Vec<char>)>)
    ensures
        match res {
            Some((p, n)) => split_colon(r@) == Some((p@, n@)),
            None => split_colon(r@) is None,
        },
{
    let n = r.len();
    if n < 3 {
        proof {
            if n == 2 {
                assert(colon_upto(r@, 0) is None);
            }
        }
        return None;
    }
    let mut k = n - 2;
    loop
        invariant
            1 <= k <= n - 2,
            n == r@.len(),
            colon_upto(r@, n - 2) == colon_upto(r@, k as int),
        decreases k,
    {
        if r[k] == ':' {
            return Some((slice_of(r, 0, k), slice_of(r, k + 1, n)));
        }
        if k == 1 {
            proof {
                assert(colon_upto(r@, 0) is None);
            }
            return None;
        }
        k = k - 1;
    }
}

/// The first `$path:name` of `v` (see `first_path_var`).
fn find_path_var(v: &Vec<char>) -> (res: Option<(Vec<char>, Vec<char>)>)
    ensures
        match res {
            Some((p, n)) => first_path_var(v@, 0) == Some((p@, n@)),
            None => first_path_var(v@, 0) is None,
        },
{
    let mut i: usize = 0;
    while i < v.len()
        invariant
            i <= v@.len(),
            first_path_var(v@, 0) == first_path_var(v@, i as int),
        decreases v@.len() - i,
    {
        if v[i] == '$' {
            let rl = name_prefix_len(v, i + 1);
            let r = slice_of(v, i + 1, i + 1 + rl);
            proof {
                let u = v@.subrange(i + 1, v@.len() as int);
                lemma_name_prefix(u);
                assert(r@ =~= name_prefix(u));
            }
            match colon_split(&r) {
                Some(pn) => return Some(pn),
                None => {},
            }
        }
        i = i + 1;
    }
    None
}

/// The first `$name` of `v` (see `first_var`).
fn find_var(v: &Vec<char>) -> (res: Option<Vec<char>>)
    ensures
        match res {
            Some(n) => first_var(v@, 0) == Some(n@),
            None => first_var(v@, 0) is None,
        },
{
    let mut i: usize = 0;
    while i < v.len()
        invariant
            i <= v@.len(),
            first_var(v@, 0) == first_var(v@, i as int),
        decreases v@.len() - i,
    {
        if v[i] == '$' {
            let rl = name_prefix_len(v, i + 1);
            if rl > 0 {
                let r = slice_of(v, i + 1, i + 1 + rl);
                proof {
                    let u = v@.subrange(i + 1, v@.len() as int);
                    lemma_name_prefix(u);
                    assert(r@ =~= name_prefix(u));
                }
                return Some(r);
            }
        }
        i = i + 1;
    }
    None
}

pub open spec fn vecs_view(v: Seq<Vec<char>>) -> Seq<Seq<char>> {
    Seq::new(v.len(), |i: int| v[i]@)
}

/// `parts` with `sep` between each two (see `joined_with`).
fn join_parts(parts: &Vec<Vec<char>>, sep: &Vec<char>) -> (res: Vec<char>)
    ensures
        res@ == joined_with(vecs_view(parts@), sep@),
{
    let n = parts.len();
    if n == 0 {
        return Vec::new();
    }
    let mut out: Vec<char> = Vec::new();
    let mut k = n;
    // built from the end: out holds joined_with of parts[k..]
    append_vec(&mut out, &parts[n - 1]);
    k = n - 1;
    proof {
        let t = vecs_view(parts@).subrange(k as int, n as int);
        assert(t.len() == 1);
        assert(out@ =~= joined_with(t, sep@));
    }
    while k > 0
        invariant
            0 <= k < n,
            n == parts@.len(),
            out@ == joined_with(vecs_view(parts@).subrange(k as int, n as int), sep@),
        decreases k,
    {
        let mut front: Vec<char> = Vec::new();
        append_vec(&mut front, &parts[k - 1]);
        append_vec(&mut front, sep);
        append_vec(&mut front, &out);
        proof {
            let t = vecs_view(parts@).subrange(k - 1, n as int);
            assert(t[0] == parts@[k - 1]@);
            assert(t.drop_first() =~= vecs_view(parts@).subrange(k as int, n as int));
            assert(front@ =~= joined_with(t, sep@));
        }
        out = front;
        k = k - 1;
    }
    proof {
        assert(vecs_view(parts@).subrange(0, n as int) =~= vecs_view(parts@));
    }
    out
}

pub open spec fn chars_view(r: Option<Vec<char>>) -> Option<Seq<char>> {
    match r {
        Some(v) => Some(v@),
        None => None,
    }
}

fn from_text(t: &str) -> (res: Vec<char>)
    ensures
        res@ == t@,
{
    let mut out: Vec<char> = Vec::new();
    append_chars(&mut out, t);
    proof {
        assert(out@ =~= t@);
    }
    out
}

/// What a value becomes (see `rvalue_spec`).
fn rvalue(v: &Vec<char>) -> (res: Option<Vec<char>>)
    ensures
        chars_view(res) == rvalue_spec(v@),
    decreases v@.len(), 0int,
{
    let n = v.len();
    let a = lead_len(v);
    proof {
        lemma_trail(v@);
    }
    if a < n && v[a] == '"' {
        match find_char(v, '"', a + 1) {
            Some(q) => {
                proof {
                    lemma_find_from(v@, '"', a + 1);
                }
                if all_spaces(v, q + 1, n) {
                    let mut out = slice_of(v, a, q + 1);
                    append_chars(&mut out, ".to_string()");
                    return Some(out);
                }
            },
            None => {},
        }
    }
    if a < n && v[a] == '$' {
        let rl = name_prefix_len(v, a + 1);
        let u = slice_of(v, a + 1, n);
        let tu = trail_len(&u);
        if n - a - 1 - tu <= rl {
            let r = slice_of(v, a + 1, a + 1 + rl);
            proof {
                lemma_name_prefix(u@);
                assert(r@ =~= name_prefix(u@));
            }
            match colon_split(&r) {
                Some((path, name)) => {
                    let env = from_text("env");
                    let same = vec_eq(&path, &env);
                    if same {
                        let mut out = from_text("sgetenv(\"");
                        append_vec(&mut out, &name);
                        append_chars(&mut out, "\")");
                        return Some(out);
                    } else {
                        return None;
                    }
                },
                None => {
                    if rl > 0 {
                        let mut out = from_text("WashEnv::getv(env, \"");
                        append_vec(&mut out, &r);
                        append_chars(&mut out, "\".to_string())");
                        return Some(out);
                    }
                },
            }
        }
    }
    let t = trail_len(v);
    match find_char(v, '(', 0) {
        Some(bb) => {
            proof {
                lemma_find_from(v@, '(', 0);
            }
            let ns = name_suffix(v, bb);
            if ns > 0 && t < n && bb < n - t - 1 {
                let e = n - t - 1;
                if all_spaces(v, 0, bb - ns) && v[e] == ')' {
                    let x = slice_of(v, bb + 1, e);
                    if find_char(&x, '\n', 0).is_none() {
                        let args = match rvalue_args(&x) {
                            Some(a) => a,
                            None => return None,
                        };
                        let name = slice_of(v, bb - ns, bb);
                        let mut out = from_text("WashEnv::getf(env, \"");
                        append_vec(&mut out, &name);
                        append_chars(&mut out, "\".to_string())(&vec![");
                        let sep = from_text(", ");
                        let joined = join_parts(&args, &sep);
                        append_vec(&mut out, &joined);
                        append_chars(&mut out, "], env);");
                        return Some(out);
                    }
                }
            }
        },
        None => {},
    }
    Some(Vec::new())
}

/// The values of the arguments in `x` (see `args_spec`).
fn rvalue_args(x: &Vec<char>) -> (res: Option<Vec<Vec<char>>>)
    ensures
        match res {
            Some(ts) => args_spec(x@) == Some(vecs_view(ts@)),
            None => args_spec(x@) is None,
        },
    decreases x@.len(), 1int,
{
    let n = x.len();
    if n == 0 {
        let out: Vec<Vec<char>> = Vec::new();
        proof {
            assert(vecs_view(out@) =~= Seq::<Seq<char>>::empty());
        }
        return Some(out);
    }
    proof {
        lemma_arg_token(x@);
    }
    let mut split: Option<usize> = None;
    if x[0] == '"' {
        match find_last_char(x, '"', 2, n - 1) {
            Some(q) => {
                proof {
                    lemma_find_last(x@, '"', 2, n - 1);
                }
                split = Some(q + 1);
            },
            None => {},
        }
    }
    if split.is_none() && name_char(x[0]) {
        let rl = name_prefix_len(x, 0);
        proof {
            assert(x@.subrange(0, n as int) =~= x@);
            lemma_name_prefix(x@);
        }
        split = Some(rl);
    }
    match split {
        None => {
            let rest = slice_of(x, 1, n);
            proof {
                assert(rest@ =~= x@.drop_first());
            }
            rvalue_args(&rest)
        },
        Some(m) => {
            let tok = slice_of(x, 0, m);
            let rest = slice_of(x, m, n);
            let t = match rvalue(&tok) {
                Some(t) => t,
                None => return None,
            };
            let mut ts = match rvalue_args(&rest) {
                Some(ts) => ts,
                None => return None,
            };
            let ghost tail = vecs_view(ts@);
            ts.insert(0, t);
            proof {
                assert(vecs_view(ts@) =~= seq![t@] + tail);
            }
            Some(ts)
        },
    }
}

fn vec_eq(a: &Vec<char>, b: &Vec<char>) -> (res: bool)
    ensures
        res == (a@ == b@),
{
    if a.len() != b.len() {
        return false;
    }
    let mut i: usize = 0;
    while i < a.len()
        invariant
            i <= a@.len() == b@.len(),
            forall|j: int| 0 <= j < i ==> a@[j] == b@[j],
        decreases a@.len() - i,
    {
        if a[i] != b[i] {
            return false;
        }
        i = i + 1;
    }
    proof {
        assert(a@ =~= b@);
    }
    true
}

/// What the left side of an assignment becomes (see `lvalue_spec`).
fn lvalue(v: &Vec<char>) -> (res: Option<Vec<Vec<char>>>)
    ensures
        match res {
            Some(ps) => lvalue_spec(v@) == Some(vecs_view(ps@)),
            None => lvalue_spec(v@) is None,
        },
{
    let mut parts: Vec<Vec<char>> = Vec::new();
    match find_path_var(v) {
        Some((path, name)) => {
            let env = from_text("env");
            if !vec_eq(&path, &env) {
                return None;
            }
            let mut pre = from_text("std::os::setenv(\"");
            append_vec(&mut pre, &name);
            append_chars(&mut pre, "\", ");
            parts.push(pre);
            parts.push(from_text(".as_slice());"));
        },
        None => match find_var(v) {
            Some(name) => {
                let mut pre = from_text("env.insv(\"");
                append_vec(&mut pre, &name);
                append_chars(&mut pre, "\".to_string(), ");
                parts.push(pre);
                parts.push(from_text(");"));
            },
            None => {},
        },
    }
    proof {
        assert(vecs_view(parts@) =~= lvalue_spec(v@)->Some_0);
    }
    Some(parts)
}

/// What a script line becomes (see `line_spec`).
fn line(v: &Vec<char>) -> (res: Option<Vec<char>>)
    ensures
        chars_view(res) == line_spec(v@),
{
    let n = v.len();
    match find_char(v, '=', 0) {
        Some(i) => {
            proof {
                lemma_find_from(v@, '=', 0);
            }
            let left = slice_of(v, 0, i);
            let right = slice_of(v, i + 1, n);
            let parts = match lvalue(&left) {
                Some(p) => p,
                None => return None,
            };
            let r = match rvalue(&right) {
                Some(r) => r,
                None => return None,
            };
            Some(join_parts(&parts, &r))
        },
        None => rvalue(v),
    }
}

// ---------------------------------------------------------------------
// Translating script lines to Rust.
// ---------------------------------------------------------------------

pub open spec fn text_view(r: Option<String>) -> Option<Seq<char>> {
    match r {
        Some(s) => Some(s@),
        None => None,
    }
}

/// What a value of a script line becomes in Rust (see `rvalue_spec`);
/// `None` for a variable of a path other than `env`.
pub fn process_rvalue(val: &str) -> (res: Option<String>)
    ensures
        text_view(res) == rvalue_spec(val@),
{
    let v = chars_of(val);
    match rvalue(&v) {
        Some(r) => Some(string_of(&r)),
        None => None,
    }
}

/// The text before and after the value of an assignment to `val` (see
/// `lvalue_spec`); `None` for a variable of a path other than `env`.
pub fn process_lvalue(val: &str) -> (res: Option<Vec<String>>)
    ensures
        match res {
            Some(ps) => lvalue_spec(val@) == Some(crate::types::strs_view(ps@)),
            None => lvalue_spec(val@) is None,
        },
{
    let v = chars_of(val);
    let parts = match lvalue(&v) {
        Some(p) => p,
        None => return None,
    };
    let mut out: Vec<String> = Vec::new();
    let mut i: usize = 0;
    while i < parts.len()
        invariant
            i <= parts@.len(),
            crate::types::strs_view(out@) == vecs_view(parts@).subrange(0, i as int),
        decreases parts@.len() - i,
    {
        let st = string_of(&parts[i]);
        let ghost before = out@;
        out.push(st);
        proof {
            assert(out@ == before.push(st));
            assert(crate::types::strs_view(out@) =~= crate::types::strs_view(before).push(st@));
            assert(crate::types::strs_view(out@) =~= vecs_view(parts@).subrange(0, i + 1));
        }
        i = i + 1;
    }
    proof {
        assert(vecs_view(parts@).subrange(0, parts@.len() as int) =~= vecs_view(parts@));
    }
    Some(out)
}

/// What a script line becomes in Rust (see `line_spec`); `None` for a
/// variable of a path other than `env`.
pub fn process_line(text: &str) -> (res: Option<String>)
    ensures
        text_view(res) == line_spec(text@),
{
    let v = chars_of(text);
    match line(&v) {
        Some(r) => Some(string_of(&r)),
        None => None,
    }
}

} // verus!
