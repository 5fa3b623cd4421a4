use vstd::prelude::*;

verus! {

/// A string made of `count` copies of `ch`.
pub fn build_string(ch: char, count: usize) -> (res: String)
    ensures
        res@ == Seq::new(count as nat, |i: int| ch),
{
    let mut s = String::new();
    let mut i: usize = 0;
    loop
        invariant
            i <= count,
            s@ == Seq::new(i as nat, |j: int| ch),
        decreases count - i,
    {
        if i == count {
            return s;
        }
        s.push(ch);
        proof {
            assert(s@ =~= Seq::new((i + 1) as nat, |j: int| ch));
        }
        i += 1;
    }
}

/// Collects the characters of an escaped key into a string.
pub fn empty_escape(esc: Vec<char>) -> (res: String)
    ensures
        res@ == esc@,
{
    let mut out = String::new();
    let mut i: usize = 0;
    while i < esc.len()
        invariant
            i <= esc.len(),
            out@ == esc@.subrange(0, i as int),
        decreases esc.len() - i,
    {
        out.push(esc[i]);
        proof {
            assert(out@ =~= esc@.subrange(0, i + 1));
        }
        i = i + 1;
    }
    proof {
        assert(esc@.subrange(0, esc.len() as int) =~= esc@);
    }
    out
}

} // verus!
