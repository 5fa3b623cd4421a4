use vstd::prelude::*;

verus! {

/// Whether `c` may stand in a variable name: anything but blanks, commas,
/// quotes and parentheses.
pub open spec fn is_name_char(c: char) -> bool {
    c != ' ' && c != '\t' && c != '\n' && c != '\r' && c != ',' && c != '"' && c != '(' && c != ')'
}

pub open spec fn all_name_chars(s: Seq<char>) -> bool {
    forall|i: int| 0 <= i < s.len() ==> is_name_char(s[i])
}

/// How a word names a variable: `$path:name` (either part may be empty),
/// `$name`, or not at all.
pub enum VarV {
    PathName(Seq<char>, Seq<char>),
    Name(Seq<char>),
    NotVar,
}

/// A split of `rest` at its first colon.
pub open spec fn colon_split(rest: Seq<char>, path: Seq<char>, name: Seq<char>) -> bool {
    rest == path + seq![':'] + name && !path.contains(':')
}

/// The variable that the word `s` names.
pub open spec fn var_view(s: Seq<char>) -> VarV {
    let rest = s.subrange(1, s.len() as int);
    if s.len() >= 2 && s[0] == '$' && all_name_chars(rest) {
        if rest.contains(':') {
            let (path, name) = choose|path: Seq<char>, name: Seq<char>| colon_split(rest, path, name);
            VarV::PathName(path, name)
        } else {
            VarV::Name(rest)
        }
    } else {
        VarV::NotVar
    }
}

/// A split at the first colon is unique.
pub proof fn lemma_colon_split_unique(rest: Seq<char>, p1: Seq<char>, n1: Seq<char>, p2: Seq<char>, n2: Seq<char>)
    requires
        colon_split(rest, p1, n1),
        colon_split(rest, p2, n2),
    ensures
        p1 == p2 && n1 == n2,
{
    if p1.len() < p2.len() {
        assert(rest[p1.len() as int] == ':');
        assert(p2[p1.len() as int] == rest[p1.len() as int]);
        assert(p2.contains(':'));
    } else if p2.len() < p1.len() {
        assert(rest[p2.len() as int] == ':');
        assert(p1[p2.len() as int] == rest[p2.len() as int]);
        assert(p1.contains(':'));
    }
    assert(p1 =~= rest.subrange(0, p1.len() as int));
    assert(p2 =~= rest.subrange(0, p2.len() as int));
    assert(n1 =~= rest.subrange(p1.len() as int + 1, rest.len() as int));
    assert(n2 =~= rest.subrange(p2.len() as int + 1, rest.len() as int));
}

/// A word read as a variable reference.
pub enum VarRef {
    PathName(String, String),
    Name(String),
    NotVar,
}

impl VarRef {
    pub open spec fn view(&self) -> VarV {
        match self {
            VarRef::PathName(p, n) => VarV::PathName(p@, n@),
            VarRef::Name(n) => VarV::Name(n@),
            VarRef::NotVar => VarV::NotVar,
        }
    }
}

/// Whether two strings hold the same characters.
pub fn str_eq(a: &str, b: &str) -> (res: bool)
    ensures
        res == (a@ == b@),
{
    let x = a.to_owned();
    let y = b.to_owned();
    x == y
}

/// Reads the word `s` as a variable reference (see `var_view`).
pub fn parse_var(s: &str) -> (res: VarRef)
    ensures
        res@ == var_view(s@),
{
    let n = s.unicode_len();
    if n < 2 || s.get_char(0) != '$' {
        return VarRef::NotVar;
    }
    let ghost rest = s@.subrange(1, n as int);
    let mut colon: usize = n;
    let mut i: usize = 1;
    while i < n
        invariant
            1 <= i <= n,
            colon <= n,
            n == s@.len(),
            rest == s@.subrange(1, n as int),
            forall|j: int| 1 <= j < i ==> is_name_char(s@[j]),
            colon == n ==> forall|j: int| 1 <= j < i ==> s@[j] != ':',
            colon < n ==> 1 <= colon < i && s@[colon as int] == ':' && forall|j: int|
                1 <= j < colon ==> s@[j] != ':',
        decreases n - i,
    {
        let c = s.get_char(i);
        if c == ' ' || c == '\t' || c == '\n' || c == '\r' || c == ',' || c == '"' || c == '(' || c == ')' {
            proof {
                assert(rest[i - 1] == c);
                assert(!all_name_chars(rest));
            }
            return VarRef::NotVar;
        }
        if c == ':' && colon == n {
            colon = i;
        }
        i = i + 1;
    }
    proof {
        assert forall|j: int| 0 <= j < rest.len() implies is_name_char(rest[j]) by {
            assert(rest[j] == s@[j + 1]);
        }
    }
    if colon < n {
        let path = s.substring_char(1, colon).to_owned();
        let name = s.substring_char(colon + 1, n).to_owned();
        proof {
            assert(rest.contains(':')) by {
                assert(rest[colon - 1] == ':');
            }
            assert(rest =~= path@ + seq![':'] + name@);
            assert(!path@.contains(':')) by {
                if path@.contains(':') {
                    let j = choose|j: int| 0 <= j < path@.len() && path@[j] == ':';
                    assert(s@[j + 1] == ':');
                }
            }
            assert(colon_split(rest, path@, name@));
            let (p2, n2) = choose|p2: Seq<char>, n2: Seq<char>| colon_split(rest, p2, n2);
            lemma_colon_split_unique(rest, path@, name@, p2, n2);
        }
        VarRef::PathName(path, name)
    } else {
        let name = s.substring_char(1, n).to_owned();
        proof {
            assert(!rest.contains(':')) by {
                if rest.contains(':') {
                    let j = choose|j: int| 0 <= j < rest.len() && rest[j] == ':';
                    assert(s@[j + 1] == ':');
                }
            }
        }
        VarRef::Name(name)
    }
}

} // verus!
