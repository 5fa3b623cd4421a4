use vstd::prelude::*;

use crate::debug::{action_debug, section_debug};
use crate::strings::append_str;
use crate::types::{Action, ActionV, SectionType, action_clone, actions_clone, actions_view, lemma_actions_view_push};

verus! {

/// One named section of compiled actions.
pub struct Section {
    pub name: SectionType,
    pub body: Vec<Action>,
}

/// The table from section names to their actions.  Each name occurs once.
pub struct SectionTable {
    entries: Vec<Section>,
}

impl SectionTable {
    pub closed spec fn keys(&self) -> Seq<SectionType> {
        Seq::new(self.entries@.len(), |i: int| self.entries@[i].name)
    }

    /// Each name occurs once.
    pub closed spec fn wf(&self) -> bool {
        forall|i: int, j: int|
            0 <= i < self.entries@.len() && 0 <= j < self.entries@.len() && i != j
                ==> self.entries@[i].name != self.entries@[j].name
    }

    /// The model: the actions of each section, by name.
    pub closed spec fn view(&self) -> Map<SectionType, Seq<ActionV>> {
        Map::new(
            |k: SectionType| exists|i: int| 0 <= i < self.entries@.len() && self.entries@[i].name == k,
            |k: SectionType|
                actions_view(
                    self.entries@[choose|i: int| 0 <= i < self.entries@.len() && self.entries@[i].name == k].body@,
                ),
        )
    }

    proof fn lemma_view_at(&self, i: int)
        requires
            self.wf(),
            0 <= i < self.entries@.len(),
        ensures
            self@.contains_key(self.entries@[i].name),
            self@[self.entries@[i].name] == actions_view(self.entries@[i].body@),
    {
        let k = self.entries@[i].name;
        assert(exists|j: int| 0 <= j < self.entries@.len() && self.entries@[j].name == k);
        let j = choose|j: int| 0 <= j < self.entries@.len() && self.entries@[j].name == k;
        assert(i == j);
    }

    /// The table has finitely many sections.
    pub proof fn lemma_dom_finite(&self)
        ensures
            self@.dom().finite(),
    {
        assert(self@.dom() =~= self.keys().to_set()) by {
            assert forall|k: SectionType| self@.dom().contains(k) <==> self.keys().to_set().contains(k) by {
                if self@.dom().contains(k) {
                    let j = choose|j: int| 0 <= j < self.entries@.len() && self.entries@[j].name == k;
                    assert(self.keys()[j] == k);
                }
                if self.keys().to_set().contains(k) {
                    assert(self.keys().contains(k));
                    let j = choose|j: int| 0 <= j < self.keys().len() && self.keys()[j] == k;
                    assert(self.entries@[j].name == k);
                }
            }
        }
        vstd::seq_lib::seq_to_set_is_finite(self.keys());
    }

    pub fn new() -> (res: SectionTable)
        ensures
            res.wf(),
            res@ == Map::<SectionType, Seq<ActionV>>::empty(),
    {
        let res = SectionTable { entries: Vec::new() };
        proof {
            assert(res@ =~= Map::<SectionType, Seq<ActionV>>::empty());
        }
        res
    }

    pub fn clear(&mut self)
        ensures
            final(self).wf(),
            final(self)@ == Map::<SectionType, Seq<ActionV>>::empty(),
    {
        self.entries.clear();
        proof {
            assert(self@ =~= Map::<SectionType, Seq<ActionV>>::empty());
        }
    }

    /// Where the section `k` stands in the table.
    fn find(&self, k: SectionType) -> (res: Option<usize>)
        requires
            self.wf(),
        ensures
            res is None ==> !self@.contains_key(k),
            res matches Some(i) ==> i < self.entries@.len() && self.entries@[i as int].name == k,
    {
        let mut i: usize = 0;
        while i < self.entries.len()
            invariant
                i <= self.entries@.len(),
                forall|j: int| 0 <= j < i ==> self.entries@[j].name != k,
            decreases self.entries@.len() - i,
        {
            if self.entries[i].name == k {
                return Some(i);
            }
            i = i + 1;
        }
        None
    }

    pub fn contains_key(&self, k: SectionType) -> (res: bool)
        requires
            self.wf(),
        ensures
            res == self@.contains_key(k),
    {
        match self.find(k) {
            Some(i) => {
                proof {
                    self.lemma_view_at(i as int);
                }
                true
            },
            None => false,
        }
    }

    /// A copy of the actions of section `k`.
    pub fn get_clone(&self, k: SectionType) -> (res: Option<Vec<Action>>)
        requires
            self.wf(),
        ensures
            res is None <==> !self@.contains_key(k),
            res matches Some(v) ==> actions_view(v@) == self@[k],
    {
        match self.find(k) {
            Some(i) => {
                proof {
                    self.lemma_view_at(i as int);
                }
                Some(actions_clone(&self.entries[i].body))
            },
            None => None,
        }
    }

    /// A copy of the action at index `i` of section `k`, if there is one.
    pub fn action_at(&self, k: SectionType, i: usize) -> (res: Option<Action>)
        requires
            self.wf(),
        ensures
            res is None <==> !(self@.contains_key(k) && i < self@[k].len()),
            res matches Some(a) ==> a@ == self@[k][i as int],
            self@.contains_key(k) ==> self@[k].len() <= usize::MAX,
    {
        match self.find(k) {
            Some(j) => {
                proof {
                    self.lemma_view_at(j as int);
                }
                if i < self.entries[j].body.len() {
                    Some(action_clone(&self.entries[j].body[i]))
                } else {
                    None
                }
            },
            None => None,
        }
    }

    /// Sets the actions of section `k`, adding the section if needed.
    pub fn insert(&mut self, k: SectionType, body: Vec<Action>)
        requires
            old(self).wf(),
        ensures
            final(self).wf(),
            final(self)@ == old(self)@.insert(k, actions_view(body@)),
    {
        match self.find(k) {
            Some(i) => {
                let ghost before = self.entries@;
                self.entries.set(i, Section { name: k, body });
                proof {
                    assert forall|j: int| 0 <= j < self.entries@.len() && j != i implies self.entries@[j]
                        == before[j] by {}
                    assert forall|kk: SectionType| #[trigger] self@.contains_key(kk) <==> old(self)@.insert(
                        k,
                        actions_view(body@),
                    ).contains_key(kk) by {
                        if self@.contains_key(kk) {
                            let j = choose|j: int| 0 <= j < self.entries@.len() && self.entries@[j].name == kk;
                            if j != i {
                                assert(before[j].name == kk);
                            }
                        }
                        if old(self)@.contains_key(kk) && kk != k {
                            let j = choose|j: int| 0 <= j < before.len() && before[j].name == kk;
                            assert(self.entries@[j].name == kk);
                        }
                        if kk == k {
                            assert(self.entries@[i as int].name == kk);
                        }
                    }
                    assert forall|kk: SectionType| #[trigger] self@.contains_key(kk) implies self@[kk]
                        == old(self)@.insert(k, actions_view(body@))[kk] by {
                        let j = choose|j: int| 0 <= j < self.entries@.len() && self.entries@[j].name == kk;
                        self.lemma_view_at(j);
                        if kk != k {
                            old(self).lemma_view_at(j);
                        }
                    }
                    assert(self@ =~= old(self)@.insert(k, actions_view(body@)));
                }
            },
            None => {
                let ghost before = self.entries@;
                self.entries.push(Section { name: k, body });
                proof {
                    let n = before.len() as int;
                    assert forall|kk: SectionType| #[trigger] self@.contains_key(kk) <==> old(self)@.insert(
                        k,
                        actions_view(body@),
                    ).contains_key(kk) by {
                        if self@.contains_key(kk) {
                            let j = choose|j: int| 0 <= j < self.entries@.len() && self.entries@[j].name == kk;
                            if j != n {
                                assert(before[j].name == kk);
                            }
                        }
                        if old(self)@.contains_key(kk) && kk != k {
                            let j = choose|j: int| 0 <= j < before.len() && before[j].name == kk;
                            assert(self.entries@[j].name == kk);
                        }
                        if kk == k {
                            assert(self.entries@[n].name == kk);
                        }
                    }
                    assert forall|kk: SectionType| #[trigger] self@.contains_key(kk) implies self@[kk]
                        == old(self)@.insert(k, actions_view(body@))[kk] by {
                        let j = choose|j: int| 0 <= j < self.entries@.len() && self.entries@[j].name == kk;
                        self.lemma_view_at(j);
                        if kk != k {
                            old(self).lemma_view_at(j);
                        }
                    }
                    assert(self@ =~= old(self)@.insert(k, actions_view(body@)));
                }
            },
        }
    }

    /// Adds section `k` with no actions if it does not exist.
    pub fn ensure(&mut self, k: SectionType)
        requires
            old(self).wf(),
        ensures
            final(self).wf(),
            final(self)@ == (if old(self)@.contains_key(k) {
                old(self)@
            } else {
                old(self)@.insert(k, Seq::<ActionV>::empty())
            }),
    {
        if !self.contains_key(k) {
            let v: Vec<Action> = Vec::new();
            proof {
                assert(actions_view(v@) =~= Seq::<ActionV>::empty());
            }
            self.insert(k, v);
        }
    }

    /// Removes section `k` and returns its actions.
    pub fn remove(&mut self, k: SectionType) -> (res: Option<Vec<Action>>)
        requires
            old(self).wf(),
        ensures
            final(self).wf(),
            res is None <==> !old(self)@.contains_key(k),
            res matches Some(v) ==> actions_view(v@) == old(self)@[k],
            final(self)@ == old(self)@.remove(k),
    {
        match self.find(k) {
            Some(i) => {
                proof {
                    self.lemma_view_at(i as int);
                }
                let ghost before = self.entries@;
                let sec = self.entries.remove(i);
                proof {
                    assert forall|a: int, b: int|
                        0 <= a < self.entries@.len() && 0 <= b < self.entries@.len() && a != b implies self.entries@[a].name
                        != self.entries@[b].name by {
                        let a2 = if a < i {
                            a
                        } else {
                            a + 1
                        };
                        let b2 = if b < i {
                            b
                        } else {
                            b + 1
                        };
                        assert(self.entries@[a] == before[a2]);
                        assert(self.entries@[b] == before[b2]);
                    }
                    assert forall|kk: SectionType| #[trigger] self@.contains_key(kk) <==> old(self)@.remove(
                        k,
                    ).contains_key(kk) by {
                        if self@.contains_key(kk) {
                            let j = choose|j: int| 0 <= j < self.entries@.len() && self.entries@[j].name == kk;
                            let j2 = if j < i {
                                j
                            } else {
                                j + 1
                            };
                            assert(before[j2] == self.entries@[j]);
                        }
                        if old(self)@.contains_key(kk) && kk != k {
                            let j = choose|j: int| 0 <= j < before.len() && before[j].name == kk;
                            if j < i {
                                assert(self.entries@[j] == before[j]);
                            } else {
                                assert(self.entries@[j - 1] == before[j]);
                            }
                        }
                    }
                    assert forall|kk: SectionType| #[trigger] self@.contains_key(kk) implies self@[kk]
                        == old(self)@.remove(k)[kk] by {
                        let j = choose|j: int| 0 <= j < self.entries@.len() && self.entries@[j].name == kk;
                        self.lemma_view_at(j);
                        let j2 = if j < i {
                            j
                        } else {
                            j + 1
                        };
                        assert(before[j2] == self.entries@[j]);
                        old(self).lemma_view_at(j2);
                    }
                    assert(self@ =~= old(self)@.remove(k));
                }
                Some(sec.body)
            },
            None => {
                proof {
                    assert(self@ =~= old(self)@.remove(k));
                }
                None
            },
        }
    }

    /// Adds one action at the end of section `k`, adding the section if needed.
    pub fn push_action(&mut self, k: SectionType, a: Action)
        requires
            old(self).wf(),
        ensures
            final(self).wf(),
            final(self)@ == old(self)@.insert(
                k,
                (if old(self)@.contains_key(k) {
                    old(self)@[k]
                } else {
                    Seq::<ActionV>::empty()
                }).push(a@),
            ),
    {
        let mut body = match self.remove(k) {
            Some(b) => b,
            None => Vec::new(),
        };
        proof {
            if !old(self)@.contains_key(k) {
                assert(actions_view(body@) =~= Seq::<ActionV>::empty());
            }
        }
        let ghost before = body@;
        body.push(a);
        proof {
            lemma_actions_view_push(before, a);
            assert(old(self)@.remove(k).insert(k, actions_view(body@)) =~= old(self)@.insert(
                k,
                (if old(self)@.contains_key(k) {
                    old(self)@[k]
                } else {
                    Seq::<ActionV>::empty()
                }).push(a@),
            ));
        }
        self.insert(k, body);
    }

    /// Moves all of `acts` to the end of section `k`, adding the section if needed.
    pub fn append_actions(&mut self, k: SectionType, acts: &mut Vec<Action>)
        requires
            old(self).wf(),
        ensures
            final(self).wf(),
            final(self)@ == old(self)@.insert(
                k,
                (if old(self)@.contains_key(k) {
                    old(self)@[k]
                } else {
                    Seq::<ActionV>::empty()
                }) + actions_view(old(acts)@),
            ),
            final(acts)@.len() == 0,
    {
        let mut body = match self.remove(k) {
            Some(b) => b,
            None => Vec::new(),
        };
        proof {
            if !old(self)@.contains_key(k) {
                assert(actions_view(body@) =~= Seq::<ActionV>::empty());
            }
        }
        let ghost before = body@;
        body.append(acts);
        proof {
            assert(actions_view(body@) =~= actions_view(before) + actions_view(old(acts)@));
            assert(old(self)@.remove(k).insert(k, actions_view(body@)) =~= old(self)@.insert(
                k,
                (if old(self)@.contains_key(k) {
                    old(self)@[k]
                } else {
                    Seq::<ActionV>::empty()
                }) + actions_view(old(acts)@),
            ));
        }
        self.insert(k, body);
    }

    /// Removes the last action of section `k`.
    pub fn pop_action(&mut self, k: SectionType) -> (res: Option<Action>)
        requires
            old(self).wf(),
        ensures
            final(self).wf(),
            !old(self)@.contains_key(k) ==> res is None && final(self)@ == old(self)@,
            old(self)@.contains_key(k) && old(self)@[k].len() == 0 ==> res is None && final(self)@
                == old(self)@,
            old(self)@.contains_key(k) && old(self)@[k].len() > 0 ==> (res matches Some(a) && a@
                == old(self)@[k].last()) && final(self)@ == old(self)@.insert(k, old(self)@[k].drop_last()),
    {
        match self.remove(k) {
            Some(mut body) => {
                let ghost before = body@;
                let r = body.pop();
                proof {
                    if before.len() > 0 {
                        assert(actions_view(body@) =~= actions_view(before).drop_last());
                    }
                    assert(old(self)@.remove(k).insert(k, actions_view(body@)) =~= (if before.len() > 0 {
                        old(self)@.insert(k, old(self)@[k].drop_last())
                    } else {
                        old(self)@
                    }));
                }
                self.insert(k, body);
                r
            },
            None => {
                proof {
                    assert(old(self)@.remove(k) =~= old(self)@);
                }
                None
            },
        }
    }

    /// The names of all sections, in table order.
    pub fn names(&self) -> (res: Vec<SectionType>)
        requires
            self.wf(),
        ensures
            forall|k: SectionType| self@.contains_key(k) <==> res@.contains(k),
    {
        let mut out: Vec<SectionType> = Vec::new();
        let mut i: usize = 0;
        while i < self.entries.len()
            invariant
                i <= self.entries@.len(),
                out@ == self.keys().subrange(0, i as int),
            decreases self.entries@.len() - i,
        {
            out.push(self.entries[i].name);
            proof {
                assert(out@ =~= self.keys().subrange(0, i + 1));
            }
            i = i + 1;
        }
        proof {
            assert(out@ =~= self.keys());
            assert forall|k: SectionType| self@.contains_key(k) <==> out@.contains(k) by {
                if self@.contains_key(k) {
                    let j = choose|j: int| 0 <= j < self.entries@.len() && self.entries@[j].name == k;
                    assert(out@[j] == k);
                }
                if out@.contains(k) {
                    let j = choose|j: int| 0 <= j < out@.len() && out@[j] == k;
                    assert(self.entries@[j].name == k);
                }
            }
        }
        out
    }
}

/// Each action written out on a line of its own.
pub open spec fn actions_listing(acts: Seq<ActionV>) -> Seq<char>
    decreases acts.len(),
{
    if acts.len() == 0 {
        seq![]
    } else {
        actions_listing(acts.drop_last()) + action_debug(acts.last()) + seq!['\n']
    }
}

/// The sections named in `order`, each as its name on a line, its actions,
/// and a blank line.
pub open spec fn sections_listing(m: Map<SectionType, Seq<ActionV>>, order: Seq<SectionType>) -> Seq<char>
    decreases order.len(),
{
    if order.len() == 0 {
        seq![]
    } else {
        sections_listing(m, order.drop_last()) + section_debug(order.last()) + seq!['\n'] + actions_listing(
            m[order.last()],
        ) + seq!['\n']
    }
}

impl SectionTable {
    /// The names of the sections are those of the model, each once.
    pub proof fn lemma_keys(&self)
        requires
            self.wf(),
        ensures
            self.keys().no_duplicates(),
            forall|k: SectionType| #[trigger] self.keys().contains(k) <==> self@.contains_key(k),
    {
        assert forall|k: SectionType| #[trigger] self.keys().contains(k) <==> self@.contains_key(k) by {
            if self.keys().contains(k) {
                let j = choose|j: int| 0 <= j < self.keys().len() && self.keys()[j] == k;
                assert(self.entries@[j].name == k);
            }
            if self@.contains_key(k) {
                let j = choose|j: int| 0 <= j < self.entries@.len() && self.entries@[j].name == k;
                assert(self.keys()[j] == k);
            }
        }
    }

    /// The sections written out in the table's order (see `sections_listing`).
    pub fn listing(&self) -> (res: String)
        requires
            self.wf(),
        ensures
            res@ == sections_listing(self@, self.keys()),
    {
        let mut out = String::new();
        let mut i: usize = 0;
        proof {
            assert(self.keys().subrange(0, 0) =~= Seq::<SectionType>::empty());
        }
        while i < self.entries.len()
            invariant
                self.wf(),
                i <= self.entries@.len(),
                out@ == sections_listing(self@, self.keys().subrange(0, i as int)),
            decreases self.entries@.len() - i,
        {
            let ghost before = out@;
            append_str(&mut out, self.entries[i].name.debug_text().as_str());
            out.push('\n');
            let body = &self.entries[i].body;
            let ghost acts = actions_view(body@);
            let ghost mid = out@;
            let mut j: usize = 0;
            proof {
                assert(actions_view(body@).subrange(0, 0) =~= Seq::<ActionV>::empty());
            }
            while j < body.len()
                invariant
                    j <= body@.len(),
                    acts == actions_view(body@),
                    out@ == mid + actions_listing(acts.subrange(0, j as int)),
                decreases body@.len() - j,
            {
                append_str(&mut out, body[j].debug_text().as_str());
                out.push('\n');
                proof {
                    let t = acts.subrange(0, j + 1);
                    assert(t.drop_last() =~= acts.subrange(0, j as int));
                    assert(t.last() == body@[j as int]@);
                }
                j = j + 1;
            }
            out.push('\n');
            proof {
                self.lemma_view_at(i as int);
                assert(acts.subrange(0, body@.len() as int) =~= acts);
                let t = self.keys().subrange(0, i + 1);
                assert(t.drop_last() =~= self.keys().subrange(0, i as int));
                assert(t.last() == self.entries@[i as int].name);
                assert(out@ =~= sections_listing(self@, t));
            }
            i = i + 1;
        }
        proof {
            assert(self.keys().subrange(0, self.entries@.len() as int) =~= self.keys());
        }
        out
    }
}

} // verus!
