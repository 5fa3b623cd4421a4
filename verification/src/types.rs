use vstd::prelude::*;

verus! {

/// A runtime value of the shell: a flat string, a list of values, or nothing.
#[derive(Debug)]
pub enum WashArgs {
    Flat(String),
    Long(Vec<WashArgs>),
    Empty,
}

/// The mathematical model of a `WashArgs` value.
pub enum ArgsV {
    Flat(Seq<char>),
    Long(Seq<ArgsV>),
    Empty,
}

impl WashArgs {
    pub open spec fn view(&self) -> ArgsV
        decreases self,
    {
        match self {
            WashArgs::Flat(s) => ArgsV::Flat(s@),
            WashArgs::Long(v) => ArgsV::Long(args_views(v@)),
            WashArgs::Empty => ArgsV::Empty,
        }
    }
}

/// The models of a sequence of values, element by element.
pub open spec fn args_views(v: Seq<WashArgs>) -> Seq<ArgsV>
    decreases v,
{
    Seq::new(v.len(), |i: int| if 0 <= i < v.len() { v[i].view() } else { ArgsV::Empty })
}

/// The models of a sequence of strings.
pub open spec fn strs_view(v: Seq<String>) -> Seq<Seq<char>> {
    Seq::new(v.len(), |i: int| v[i]@)
}

/// Every flat string contained in a value, in order.
pub open spec fn flat_list(a: ArgsV) -> Seq<Seq<char>>
    decreases a,
{
    match a {
        ArgsV::Flat(s) => seq![s],
        ArgsV::Long(v) => flat_list_seq(v),
        ArgsV::Empty => seq![],
    }
}

pub open spec fn flat_list_seq(v: Seq<ArgsV>) -> Seq<Seq<char>>
    decreases v,
{
    if v.len() == 0 {
        seq![]
    } else {
        flat_list_seq(v.subrange(0, v.len() - 1)) + flat_list(v[v.len() - 1])
    }
}

/// A sequence with its last element removed, if it has one.
pub open spec fn drop_last_char(s: Seq<char>) -> Seq<char> {
    if s.len() > 0 {
        s.drop_last()
    } else {
        s
    }
}

/// A value written as text: lists are joined with `with` between their items.
pub open spec fn flat_with(a: ArgsV, with: Seq<char>) -> Seq<char>
    decreases a,
{
    match a {
        ArgsV::Flat(s) => s,
        ArgsV::Long(v) => drop_last_char(joined(v, with, with)),
        ArgsV::Empty => seq![],
    }
}

/// Each item written with `inner` between its parts, followed by `sep`.
pub open spec fn joined(v: Seq<ArgsV>, inner: Seq<char>, sep: Seq<char>) -> Seq<char>
    decreases v,
{
    if v.len() == 0 {
        seq![]
    } else {
        joined(v.subrange(0, v.len() - 1), inner, sep) + flat_with(v[v.len() - 1], inner) + sep
    }
}

/// A value written as text with list items on lines of their own.
pub open spec fn flat_with_inner(a: ArgsV, outer: Seq<char>, inner: Seq<char>) -> Seq<char> {
    match a {
        ArgsV::Flat(s) => s,
        ArgsV::Long(v) => drop_last_char(joined(v, inner, outer)),
        ArgsV::Empty => seq![],
    }
}

/// The number of items of a value.
pub open spec fn args_len(a: ArgsV) -> nat {
    match a {
        ArgsV::Flat(_) => 1,
        ArgsV::Long(v) => v.len(),
        ArgsV::Empty => 0,
    }
}

/// The item at `index`: the value itself for a flat value, nothing past the end.
pub open spec fn args_get(a: ArgsV, index: int) -> ArgsV {
    if index >= args_len(a) {
        ArgsV::Empty
    } else {
        match a {
            ArgsV::Flat(s) => ArgsV::Flat(s),
            ArgsV::Long(v) => v[index],
            ArgsV::Empty => ArgsV::Empty,
        }
    }
}

pub open spec fn min_int(a: int, b: int) -> int {
    if a < b {
        a
    } else {
        b
    }
}

/// The start of a slice: `from` clamped into `0..=len`.
pub open spec fn slice_from(a: ArgsV, from: int) -> int {
    min_int(if from < 0 {
        0
    } else {
        from
    }, args_len(a) as int)
}

/// The end of a slice: the length when `to` is negative, the start otherwise.
pub open spec fn slice_to(a: ArgsV, from: int, to: int) -> int {
    if to < 0 {
        args_len(a) as int
    } else {
        min_int(slice_from(a, from), args_len(a) as int)
    }
}

/// The items of a list from `from` on when `to` is negative; an empty list otherwise.
pub open spec fn args_slice(a: ArgsV, from: int, to: int) -> ArgsV {
    let f = slice_from(a, from);
    let t = slice_to(a, from, to);
    if t <= f {
        ArgsV::Long(seq![])
    } else {
        match a {
            ArgsV::Long(v) => ArgsV::Long(v.subrange(f, t)),
            _ => ArgsV::Empty,
        }
    }
}

proof fn lemma_args_views_index(v: Seq<WashArgs>, i: int)
    requires
        0 <= i < v.len(),
    ensures
        args_views(v)[i] == v[i]@,
        args_views(v).len() == v.len(),
{
}

proof fn lemma_args_views_push(v: Seq<WashArgs>, x: WashArgs)
    ensures
        args_views(v.push(x)) == args_views(v).push(x@),
{
    assert(args_views(v.push(x)) =~= args_views(v).push(x@));
}

proof fn lemma_args_views_take(v: Seq<WashArgs>, i: int)
    requires
        0 <= i < v.len(),
    ensures
        args_views(v).subrange(0, i + 1).subrange(0, i) == args_views(v).subrange(0, i),
        args_views(v).subrange(0, i + 1)[i] == v[i]@,
{
    assert(args_views(v).subrange(0, i + 1).subrange(0, i) =~= args_views(v).subrange(0, i));
}

/// A copy of a value with the same model.
#[verifier::loop_isolation(false)]
pub fn args_clone(a: &WashArgs) -> (res: WashArgs)
    ensures
        res@ == a@,
    decreases a,
{
    match a {
        WashArgs::Flat(s) => WashArgs::Flat(s.clone()),
        WashArgs::Long(v) => {
            let mut out: Vec<WashArgs> = Vec::new();
            let mut i: usize = 0;
            while i < v.len()
                invariant
                    i <= v.len(),
                    args_views(out@) == args_views(v@).subrange(0, i as int),
                decreases v.len() - i,
            {
                proof {
                    assert(decreases_to!(a => v@[i as int]));
                }
                let item = args_clone(&v[i]);
                proof {
                    lemma_args_views_index(v@, i as int);
                }
                let ghost before = out@;
                out.push(item);
                proof {
                    lemma_args_views_push(before, item);
                    assert(args_views(out@) =~= args_views(v@).subrange(0, i + 1));
                }
                i = i + 1;
            }
            proof {
                assert(args_views(v@).subrange(0, v.len() as int) =~= args_views(v@));
            }
            WashArgs::Long(out)
        },
        WashArgs::Empty => WashArgs::Empty,
    }
}

impl Clone for WashArgs {
    fn clone(&self) -> (res: Self)
        ensures
            res@ == self@,
    {
        args_clone(self)
    }
}

/// Whether two values have the same model.
#[verifier::loop_isolation(false)]
pub fn args_eq(a: &WashArgs, b: &WashArgs) -> (res: bool)
    ensures
        res == (a@ == b@),
    decreases a,
{
    if let WashArgs::Flat(x) = a {
        if let WashArgs::Flat(y) = b {
            return *x == *y;
        }
        return false;
    }
    if let WashArgs::Empty = a {
        return b.is_empty();
    }
    match (a, b) {
        (WashArgs::Long(x), WashArgs::Long(y)) => {
            if x.len() != y.len() {
                proof {
                    assert(args_views(x@).len() != args_views(y@).len());
                }
                return false;
            }
            let mut i: usize = 0;
            while i < x.len()
                invariant
                    i <= x.len(),
                    x.len() == y.len(),
                    forall|j: int| 0 <= j < i ==> args_views(x@)[j] == args_views(y@)[j],
                decreases x.len() - i,
            {
                proof {
                    assert(decreases_to!(a => x@[i as int]));
                }
                let same = args_eq(&x[i], &y[i]);
                proof {
                    lemma_args_views_index(x@, i as int);
                    lemma_args_views_index(y@, i as int);
                }
                if !same {
                    proof {
                        assert(args_views(x@)[i as int] != args_views(y@)[i as int]);
                        assert(a@ == ArgsV::Long(args_views(x@)));
                        assert(b@ == ArgsV::Long(args_views(y@)));
                    }
                    return false;
                }
                i = i + 1;
            }
            proof {
                assert(args_views(x@) =~= args_views(y@));
                assert(a@ == ArgsV::Long(args_views(x@)));
                assert(b@ == ArgsV::Long(args_views(y@)));
            }
            true
        },
        _ => false,
    }
}

impl PartialEq for WashArgs {
    fn eq(&self, other: &Self) -> (res: bool) {
        args_eq(self, other)
    }
}

impl vstd::std_specs::cmp::PartialEqSpecImpl for WashArgs {
    open spec fn obeys_eq_spec() -> bool {
        true
    }

    open spec fn eq_spec(&self, other: &Self) -> bool {
        self@ == other@
    }
}

impl WashArgs {
    /// Every flat string of the value, in order.
    #[verifier::loop_isolation(false)]
    pub fn flatten_vec(&self) -> (res: Vec<String>)
        ensures
            strs_view(res@) == flat_list(self@),
        decreases self,
    {
        match self {
            WashArgs::Flat(s) => {
                let out = vec![s.clone()];
                proof {
                    assert(strs_view(out@) =~= seq![s@]);
                }
                out
            },
            WashArgs::Long(v) => {
                let mut out: Vec<String> = Vec::new();
                let mut i: usize = 0;
                proof {
                    assert(strs_view(out@) =~= flat_list_seq(args_views(v@).subrange(0, 0)));
                }
                while i < v.len()
                    invariant
                        i <= v.len(),
                        strs_view(out@) == flat_list_seq(args_views(v@).subrange(0, i as int)),
                    decreases v.len() - i,
                {
                    proof {
                        assert(decreases_to!(self => v@[i as int]));
                    }
                    let mut part = v[i].flatten_vec();
                    proof {
                        lemma_args_views_take(v@, i as int);
                    }
                    let ghost before = out@;
                    out.append(&mut part);
                    proof {
                        assert(strs_view(out@) =~= strs_view(before) + flat_list(v@[i as int]@));
                    }
                    i = i + 1;
                }
                proof {
                    assert(args_views(v@).subrange(0, v.len() as int) =~= args_views(v@));
                }
                out
            },
            WashArgs::Empty => {
                let out: Vec<String> = Vec::new();
                proof {
                    assert(strs_view(out@) =~= seq![]);
                }
                out
            },
        }
    }

    /// The value written as text, with `with` between the items of each list.
    pub fn flatten_with(&self, with: &str) -> (res: String)
        ensures
            res@ == flat_with(self@, with@),
        decreases self,
    {
        match self {
            WashArgs::Flat(s) => s.clone(),
            WashArgs::Long(v) => {
                let out = joined_items(v, with, with);
                proof {
                    assert(args_views(v@).subrange(0, v.len() as int) =~= args_views(v@));
                }
                out
            },
            WashArgs::Empty => String::new(),
        }
    }

    /// The value written as text: list items separated by `outer`, and the
    /// parts of each item by `inner`.
    pub fn flatten_with_inner(&self, outer: &str, inner: &str) -> (res: String)
        ensures
            res@ == flat_with_inner(self@, outer@, inner@),
    {
        match self {
            WashArgs::Flat(s) => s.clone(),
            WashArgs::Long(v) => {
                let out = joined_items(v, inner, outer);
                proof {
                    assert(args_views(v@).subrange(0, v.len() as int) =~= args_views(v@));
                }
                out
            },
            WashArgs::Empty => String::new(),
        }
    }

    /// The value written as text with one item per line.
    pub fn flatten(&self) -> (res: String)
        ensures
            res@ == flat_with(self@, seq!['\n']),
    {
        let nl = "\n";
        proof {
            reveal_strlit("\n");
            assert(nl@ =~= seq!['\n']);
        }
        self.flatten_with(nl)
    }

    pub fn len(&self) -> (res: usize)
        ensures
            res == args_len(self@),
    {
        match self {
            WashArgs::Flat(_) => 1,
            WashArgs::Long(v) => v.len(),
            WashArgs::Empty => 0,
        }
    }

    pub fn is_empty(&self) -> (res: bool)
        ensures
            res == (self@ is Empty),
    {
        match self {
            WashArgs::Flat(_) | WashArgs::Long(_) => false,
            WashArgs::Empty => true,
        }
    }

    pub fn is_flat(&self) -> (res: bool)
        ensures
            res == (self@ is Flat),
    {
        match self {
            WashArgs::Flat(_) => true,
            _ => false,
        }
    }

    pub fn is_long(&self) -> (res: bool)
        ensures
            res == (self@ is Long),
    {
        match self {
            WashArgs::Long(_) => true,
            _ => false,
        }
    }

    /// The item at `index` (see `args_get`).
    pub fn get(&self, index: usize) -> (res: WashArgs)
        ensures
            res@ == args_get(self@, index as int),
    {
        if index >= self.len() {
            return WashArgs::Empty;
        }
        match self {
            WashArgs::Flat(v) => WashArgs::Flat(v.clone()),
            WashArgs::Long(v) => {
                proof {
                    lemma_args_views_index(v@, index as int);
                }
                args_clone(&v[index])
            },
            WashArgs::Empty => WashArgs::Empty,
        }
    }

    /// The text of the item at `index`, or the empty string where that item is not flat.
    pub fn get_flat(&self, index: usize) -> (res: String)
        ensures
            res@ == (match args_get(self@, index as int) {
                ArgsV::Flat(s) => s,
                _ => Seq::<char>::empty(),
            }),
    {
        match self.get(index) {
            WashArgs::Flat(v) => v,
            _ => String::new(),
        }
    }

    /// The items from `u_from` on (see `args_slice`).
    pub fn slice(&self, u_from: isize, u_to: isize) -> (res: WashArgs)
        ensures
            res@ == args_slice(self@, u_from as int, u_to as int),
    {
        let len = self.len();
        let lower: usize = if u_from < 0 {
            0
        } else {
            u_from as usize
        };
        let from: usize = if lower < len {
            lower
        } else {
            len
        };
        let to: usize = if u_to < 0 {
            len
        } else if from < len {
            from
        } else {
            len
        };
        if to <= from {
            let out: Vec<WashArgs> = Vec::new();
            proof {
                assert(args_views(out@) =~= Seq::<ArgsV>::empty());
            }
            return WashArgs::Long(out);
        }
        match self {
            WashArgs::Long(v) => {
                let mut out: Vec<WashArgs> = Vec::new();
                let mut i: usize = from;
                while i < to
                    invariant
                        from <= i <= to,
                        to <= v.len(),
                        args_views(out@) == args_views(v@).subrange(from as int, i as int),
                    decreases to - i,
                {
                    proof {
                        lemma_args_views_index(v@, i as int);
                    }
                    let item = args_clone(&v[i]);
                    let ghost before = out@;
                    out.push(item);
                    proof {
                        lemma_args_views_push(before, item);
                        assert(args_views(out@) =~= args_views(v@).subrange(from as int, i + 1));
                    }
                    i = i + 1;
                }
                WashArgs::Long(out)
            },
            _ => WashArgs::Empty,
        }
    }
}

/// The items of `v` written with `inner`, each followed by `sep`, with the
/// last character of the whole removed.
fn joined_items(v: &Vec<WashArgs>, inner: &str, sep: &str) -> (res: String)
    ensures
        res@ == drop_last_char(joined(args_views(v@).subrange(0, v.len() as int), inner@, sep@)),
    decreases v,
{
    let mut out = String::new();
    let mut i: usize = 0;
    proof {
        assert(args_views(v@).subrange(0, 0) =~= Seq::<ArgsV>::empty());
    }
    while i < v.len()
        invariant
            i <= v.len(),
            out@ == joined(args_views(v@).subrange(0, i as int), inner@, sep@),
        decreases v.len() - i,
    {
        proof {
            assert(decreases_to!(v => v@[i as int]));
        }
        let part = v[i].flatten_with(inner);
        proof {
            lemma_args_views_take(v@, i as int);
        }
        out.append(part.as_str());
        out.append(sep);
        i = i + 1;
    }
    out.pop();
    out
}

/// A piece of a typed line: a list, a function call with its arguments,
/// a bare word, a quoted literal, or the separator between items.
#[derive(Debug)]
pub enum InputValue {
    Long(Vec<InputValue>),
    Function(String, Vec<InputValue>),
    Short(String),
    Literal(String),
    Split(String),
}

/// The mathematical model of an `InputValue`.
pub enum InputV {
    Long(Seq<InputV>),
    Function(Seq<char>, Seq<InputV>),
    Short(Seq<char>),
    Literal(Seq<char>),
    Split(Seq<char>),
}

impl InputValue {
    pub open spec fn view(&self) -> InputV
        decreases self,
    {
        match self {
            InputValue::Long(v) => InputV::Long(input_views(v@)),
            InputValue::Function(n, v) => InputV::Function(n@, input_views(v@)),
            InputValue::Short(s) => InputV::Short(s@),
            InputValue::Literal(s) => InputV::Literal(s@),
            InputValue::Split(s) => InputV::Split(s@),
        }
    }
}

/// The models of a sequence of input values, element by element.
pub open spec fn input_views(v: Seq<InputValue>) -> Seq<InputV>
    decreases v,
{
    Seq::new(v.len(), |i: int| if 0 <= i < v.len() { v[i].view() } else { InputV::Short(seq![]) })
}

pub proof fn lemma_input_views_push(v: Seq<InputValue>, x: InputValue)
    ensures
        input_views(v.push(x)) == input_views(v).push(x@),
{
    assert(input_views(v.push(x)) =~= input_views(v).push(x@));
}

pub proof fn lemma_input_views_drop_last(v: Seq<InputValue>)
    requires
        v.len() > 0,
    ensures
        input_views(v.drop_last()) == input_views(v).drop_last(),
        input_views(v).last() == v.last()@,
{
    assert(input_views(v.drop_last()) =~= input_views(v).drop_last());
}

pub proof fn lemma_input_views_index(v: Seq<InputValue>, i: int)
    requires
        0 <= i < v.len(),
    ensures
        input_views(v)[i] == v[i]@,
        input_views(v).len() == v.len(),
{
}

/// Whether an input value holds nothing: an empty list, a nameless call
/// without arguments, or an empty word.
pub open spec fn input_is_empty(v: InputV) -> bool {
    match v {
        InputV::Long(items) => items.len() == 0,
        InputV::Function(n, items) => n.len() == 0 && items.len() == 0,
        InputV::Short(s) => s.len() == 0,
        InputV::Literal(s) => s.len() == 0,
        InputV::Split(s) => s.len() == 0,
    }
}

impl InputValue {
    pub fn is_empty(&self) -> (res: bool)
        ensures
            res == input_is_empty(self@),
    {
        match self {
            InputValue::Long(v) => v.len() == 0,
            InputValue::Function(n, v) => n.as_str().is_empty() && v.len() == 0,
            InputValue::Literal(v) => v.as_str().is_empty(),
            InputValue::Split(v) => v.as_str().is_empty(),
            InputValue::Short(v) => v.as_str().is_empty(),
        }
    }

    pub fn clear(&mut self)
        ensures
            final(self)@ == InputV::Short(seq![]),
    {
        *self = InputValue::Short(String::new());
    }
}

/// A copy of a sequence of input values with the same models.
#[verifier::loop_isolation(false)]
pub fn input_vec_clone(v: &Vec<InputValue>) -> (res: Vec<InputValue>)
    ensures
        input_views(res@) == input_views(v@),
    decreases v,
{
    let mut out: Vec<InputValue> = Vec::new();
    let mut i: usize = 0;
    while i < v.len()
        invariant
            i <= v.len(),
            input_views(out@) == input_views(v@).subrange(0, i as int),
        decreases v.len() - i,
    {
        proof {
            assert(decreases_to!(v => v@[i as int]));
        }
        let item = input_clone(&v[i]);
        let ghost before = out@;
        out.push(item);
        proof {
            lemma_input_views_push(before, item);
            assert(input_views(out@) =~= input_views(v@).subrange(0, i + 1));
        }
        i = i + 1;
    }
    proof {
        assert(input_views(v@).subrange(0, v.len() as int) =~= input_views(v@));
    }
    out
}

/// A copy of an input value with the same model.
pub fn input_clone(a: &InputValue) -> (res: InputValue)
    ensures
        res@ == a@,
    decreases a,
{
    match a {
        InputValue::Long(v) => InputValue::Long(input_vec_clone(v)),
        InputValue::Function(n, v) => InputValue::Function(n.clone(), input_vec_clone(v)),
        InputValue::Short(s) => InputValue::Short(s.clone()),
        InputValue::Literal(s) => InputValue::Literal(s.clone()),
        InputValue::Split(s) => InputValue::Split(s.clone()),
    }
}

impl Clone for InputValue {
    fn clone(&self) -> (res: Self)
        ensures
            res@ == self@,
    {
        input_clone(self)
    }
}

/// Whether two sequences of input values have the same models.
#[verifier::loop_isolation(false)]
pub fn input_vec_eq(x: &Vec<InputValue>, y: &Vec<InputValue>) -> (res: bool)
    ensures
        res == (input_views(x@) == input_views(y@)),
    decreases x,
{
    if x.len() != y.len() {
        proof {
            assert(input_views(x@).len() != input_views(y@).len());
        }
        return false;
    }
    let mut i: usize = 0;
    while i < x.len()
        invariant
            i <= x.len(),
            x.len() == y.len(),
            forall|j: int| 0 <= j < i ==> input_views(x@)[j] == input_views(y@)[j],
        decreases x.len() - i,
    {
        proof {
            assert(decreases_to!(x => x@[i as int]));
            lemma_input_views_index(x@, i as int);
            lemma_input_views_index(y@, i as int);
        }
        if !input_eq(&x[i], &y[i]) {
            proof {
                assert(input_views(x@)[i as int] != input_views(y@)[i as int]);
            }
            return false;
        }
        i = i + 1;
    }
    proof {
        assert(input_views(x@) =~= input_views(y@));
    }
    true
}

/// Whether two input values have the same model.
pub fn input_eq(a: &InputValue, b: &InputValue) -> (res: bool)
    ensures
        res == (a@ == b@),
    decreases a,
{
    match a {
        InputValue::Long(x) => match b {
            InputValue::Long(y) => input_vec_eq(x, y),
            _ => false,
        },
        InputValue::Function(n, x) => match b {
            InputValue::Function(m, y) => *n == *m && input_vec_eq(x, y),
            _ => false,
        },
        InputValue::Short(s) => match b {
            InputValue::Short(t) => *s == *t,
            _ => false,
        },
        InputValue::Literal(s) => match b {
            InputValue::Literal(t) => *s == *t,
            _ => false,
        },
        InputValue::Split(s) => match b {
            InputValue::Split(t) => *s == *t,
            _ => false,
        },
    }
}

impl PartialEq for InputValue {
    fn eq(&self, other: &Self) -> (res: bool) {
        input_eq(self, other)
    }
}

impl vstd::std_specs::cmp::PartialEqSpecImpl for InputValue {
    open spec fn obeys_eq_spec() -> bool {
        true
    }

    open spec fn eq_spec(&self, other: &Self) -> bool {
        self@ == other@
    }
}

/// A place on the terminal screen.
#[derive(Clone, Copy, PartialEq, Eq, Structural, Debug)]
pub struct Position {
    pub row: usize,
    pub col: usize,
}

impl Position {
    pub fn new() -> (res: Position)
        ensures
            res.row == 0 && res.col == 0,
    {
        Position { row: 0, col: 0 }
    }
}

/// A block of lines gathered before it is run.
pub struct WashBlock {
    pub start: String,
    pub next: Vec<InputValue>,
    pub close: Vec<InputValue>,
    pub content: Vec<InputValue>,
}

/// What a handler tells the line compiler to do next.
#[derive(Clone, Copy, PartialEq, Eq, Structural, Debug)]
pub enum HandlerResult {
    Continue,
    Stop,
    More(SectionType),
}

/// The name of a section of compiled actions.
#[derive(Clone, Copy, PartialEq, Eq, Structural, Debug, Hash)]
pub enum SectionType {
    Load,
    Run,
    Number(usize),
}

/// One instruction of a compiled line.  The machine that runs them keeps a
/// front value and a stack of values.
#[derive(Debug)]
pub enum Action {
    /// set the front value to the given value
    Assign(WashArgs),
    /// call the named function on the front value; the result is the new front value
    Call(String),
    /// stop with the given message
    Fail(String),
    /// store the front value under the `$path:name` on top of the stack
    Store,
    /// load the variable named by the front value into the front value
    Load,
    /// go to the numbered section when the front value is not empty
    Branch(usize),
    /// go to the numbered section
    Jump(usize),
    /// push the front value onto the stack and empty it
    Temp,
    /// copy the top of the stack into the front value
    Top,
    /// pop the top of the stack into the front value
    Pull,
    /// swap the front value with the top of the stack
    Swap,
    /// pop the last given number of stack values into a list in the front value
    Join(usize),
    /// store the front value under the given name and path
    DStore(String, String),
    /// push the given value onto the stack
    Insert(WashArgs),
    /// call the named function on the last given number of stack values and push the result
    Proc(String, usize),
    /// pop the stack into the given name and path
    UnStack(String, String),
    /// push the given variable onto the stack
    Stack(String, String),
    /// push a copy of the top of the stack
    ReInsert,
    /// pop the stack and go to the numbered section when that value is not empty
    Root(usize),
    /// save a function whose entry is the numbered section
    Save(usize),
    /// set the front value to the function arguments
    Args,
    /// index into the first stack value by the front value
    Index,
}

/// The mathematical model of an `Action`.
pub enum ActionV {
    Assign(ArgsV),
    Call(Seq<char>),
    Fail(Seq<char>),
    Store,
    Load,
    Branch(usize),
    Jump(usize),
    Temp,
    Top,
    Pull,
    Swap,
    Join(usize),
    DStore(Seq<char>, Seq<char>),
    Insert(ArgsV),
    Proc(Seq<char>, usize),
    UnStack(Seq<char>, Seq<char>),
    Stack(Seq<char>, Seq<char>),
    ReInsert,
    Root(usize),
    Save(usize),
    Args,
    Index,
}

impl Action {
    pub open spec fn view(&self) -> ActionV {
        match self {
            Action::Assign(a) => ActionV::Assign(a@),
            Action::Call(a) => ActionV::Call(a@),
            Action::Fail(a) => ActionV::Fail(a@),
            Action::Store => ActionV::Store,
            Action::Load => ActionV::Load,
            Action::Branch(a) => ActionV::Branch(*a),
            Action::Jump(a) => ActionV::Jump(*a),
            Action::Temp => ActionV::Temp,
            Action::Top => ActionV::Top,
            Action::Pull => ActionV::Pull,
            Action::Swap => ActionV::Swap,
            Action::Join(a) => ActionV::Join(*a),
            Action::DStore(a, b) => ActionV::DStore(a@, b@),
            Action::Insert(a) => ActionV::Insert(a@),
            Action::Proc(a, b) => ActionV::Proc(a@, *b),
            Action::UnStack(a, b) => ActionV::UnStack(a@, b@),
            Action::Stack(a, b) => ActionV::Stack(a@, b@),
            Action::ReInsert => ActionV::ReInsert,
            Action::Root(a) => ActionV::Root(*a),
            Action::Save(a) => ActionV::Save(*a),
            Action::Args => ActionV::Args,
            Action::Index => ActionV::Index,
        }
    }
}

/// A copy of an action with the same model.
pub fn action_clone(a: &Action) -> (res: Action)
    ensures
        res@ == a@,
{
    match a {
        Action::Assign(a) => Action::Assign(args_clone(a)),
        Action::Call(a) => Action::Call(a.clone()),
        Action::Fail(a) => Action::Fail(a.clone()),
        Action::Store => Action::Store,
        Action::Load => Action::Load,
        Action::Branch(a) => Action::Branch(*a),
        Action::Jump(a) => Action::Jump(*a),
        Action::Temp => Action::Temp,
        Action::Top => Action::Top,
        Action::Pull => Action::Pull,
        Action::Swap => Action::Swap,
        Action::Join(a) => Action::Join(*a),
        Action::DStore(a, b) => Action::DStore(a.clone(), b.clone()),
        Action::Insert(a) => Action::Insert(args_clone(a)),
        Action::Proc(a, b) => Action::Proc(a.clone(), *b),
        Action::UnStack(a, b) => Action::UnStack(a.clone(), b.clone()),
        Action::Stack(a, b) => Action::Stack(a.clone(), b.clone()),
        Action::ReInsert => Action::ReInsert,
        Action::Root(a) => Action::Root(*a),
        Action::Save(a) => Action::Save(*a),
        Action::Args => Action::Args,
        Action::Index => Action::Index,
    }
}

impl Clone for Action {
    fn clone(&self) -> (res: Self)
        ensures
            res@ == self@,
    {
        action_clone(self)
    }
}

/// Whether two actions have the same model.
pub fn action_eq(this: &Action, other: &Action) -> (res: bool)
    ensures
        res == (this@ == other@),
{
    match this {
        Action::Assign(a) => match other {
            Action::Assign(w) => args_eq(a, w),
            _ => false,
        },
        Action::Call(a) => match other {
            Action::Call(w) => *a == *w,
            _ => false,
        },
        Action::Fail(a) => match other {
            Action::Fail(w) => *a == *w,
            _ => false,
        },
        Action::Store => match other {
            Action::Store => true,
            _ => false,
        },
        Action::Load => match other {
            Action::Load => true,
            _ => false,
        },
        Action::Branch(a) => match other {
            Action::Branch(w) => *a == *w,
            _ => false,
        },
        Action::Jump(a) => match other {
            Action::Jump(w) => *a == *w,
            _ => false,
        },
        Action::Temp => match other {
            Action::Temp => true,
            _ => false,
        },
        Action::Top => match other {
            Action::Top => true,
            _ => false,
        },
        Action::Pull => match other {
            Action::Pull => true,
            _ => false,
        },
        Action::Swap => match other {
            Action::Swap => true,
            _ => false,
        },
        Action::Join(a) => match other {
            Action::Join(w) => *a == *w,
            _ => false,
        },
        Action::DStore(a, b) => match other {
            Action::DStore(w, x) => *a == *w && *b == *x,
            _ => false,
        },
        Action::Insert(a) => match other {
            Action::Insert(w) => args_eq(a, w),
            _ => false,
        },
        Action::Proc(a, b) => match other {
            Action::Proc(w, x) => *a == *w && *b == *x,
            _ => false,
        },
        Action::UnStack(a, b) => match other {
            Action::UnStack(w, x) => *a == *w && *b == *x,
            _ => false,
        },
        Action::Stack(a, b) => match other {
            Action::Stack(w, x) => *a == *w && *b == *x,
            _ => false,
        },
        Action::ReInsert => match other {
            Action::ReInsert => true,
            _ => false,
        },
        Action::Root(a) => match other {
            Action::Root(w) => *a == *w,
            _ => false,
        },
        Action::Save(a) => match other {
            Action::Save(w) => *a == *w,
            _ => false,
        },
        Action::Args => match other {
            Action::Args => true,
            _ => false,
        },
        Action::Index => match other {
            Action::Index => true,
            _ => false,
        },
    }
}

impl PartialEq for Action {
    fn eq(&self, other: &Self) -> (res: bool) {
        action_eq(self, other)
    }
}

impl vstd::std_specs::cmp::PartialEqSpecImpl for Action {
    open spec fn obeys_eq_spec() -> bool {
        true
    }

    open spec fn eq_spec(&self, other: &Self) -> bool {
        self@ == other@
    }
}

/// The models of a sequence of actions.
pub open spec fn actions_view(v: Seq<Action>) -> Seq<ActionV> {
    Seq::new(v.len(), |i: int| v[i]@)
}

pub proof fn lemma_actions_view_push(v: Seq<Action>, x: Action)
    ensures
        actions_view(v.push(x)) == actions_view(v).push(x@),
{
    assert(actions_view(v.push(x)) =~= actions_view(v).push(x@));
}

/// A copy of a sequence of actions with the same models.
pub fn actions_clone(v: &Vec<Action>) -> (res: Vec<Action>)
    ensures
        actions_view(res@) == actions_view(v@),
{
    let mut out: Vec<Action> = Vec::new();
    let mut i: usize = 0;
    while i < v.len()
        invariant
            i <= v.len(),
            actions_view(out@) == actions_view(v@).subrange(0, i as int),
        decreases v.len() - i,
    {
        let item = action_clone(&v[i]);
        let ghost before = out@;
        out.push(item);
        proof {
            lemma_actions_view_push(before, item);
            assert(actions_view(out@) =~= actions_view(v@).subrange(0, i + 1));
        }
        i = i + 1;
    }
    proof {
        assert(actions_view(v@).subrange(0, v.len() as int) =~= actions_view(v@));
    }
    out
}

} // verus!
