use vstd::prelude::*;

verus! {

/// A link reference definition: destination and optional title, as written (references and
/// backslash escapes still in them).
pub struct LinkDefinition {
    pub dest: Vec<char>,
    pub title: Option<Vec<char>>,
}

/// Link reference definitions by normalized label; the first definition of a label wins.
pub struct LRDTable {
    pub entries: Vec<(String, LinkDefinition)>,
}

pub open spec fn def_view(d: LinkDefinition) -> (Seq<char>, Option<Seq<char>>) {
    (
        d.dest@,
        match d.title {
            Some(t) => Some(t@),
            None => None,
        },
    )
}

/// Definitions as pairs of label and (destination, title), in the order they were made.
pub open spec fn def_labels(defs: Seq<(Seq<char>, (Seq<char>, Option<Seq<char>>))>) -> Seq<Seq<char>> {
    defs.map_values(|e: (Seq<char>, (Seq<char>, Option<Seq<char>>))| e.0)
}

/// The definitions after defining `label` as `d`: added when the label is new, and ignored when
/// it is defined already.
pub open spec fn spec_define(
    defs: Seq<(Seq<char>, (Seq<char>, Option<Seq<char>>))>,
    label: Seq<char>,
    d: (Seq<char>, Option<Seq<char>>),
) -> Seq<(Seq<char>, (Seq<char>, Option<Seq<char>>))> {
    if def_labels(defs).contains(label) {
        defs
    } else {
        defs.push((label, d))
    }
}

/// The definitions after defining each of `new` in turn.
pub open spec fn spec_define_all(
    defs: Seq<(Seq<char>, (Seq<char>, Option<Seq<char>>))>,
    new: Seq<(Seq<char>, (Seq<char>, Option<Seq<char>>))>,
) -> Seq<(Seq<char>, (Seq<char>, Option<Seq<char>>))>
    decreases new.len(),
{
    if new.len() == 0 {
        defs
    } else {
        spec_define_all(spec_define(defs, new[0].0, new[0].1), new.skip(1))
    }
}

impl LRDTable {
    /// The definitions, in the order they were made.
    pub open spec fn defs(&self) -> Seq<(Seq<char>, (Seq<char>, Option<Seq<char>>))> {
        self.entries@.map_values(|e: (String, LinkDefinition)| (e.0@, def_view(e.1)))
    }

    /// The labels defined, in the order of their definitions.
    pub open spec fn labels(&self) -> Seq<Seq<char>> {
        self.entries@.map_values(|e: (String, LinkDefinition)| e.0@)
    }

    /// No label is defined twice.
    pub open spec fn wf(&self) -> bool {
        self.labels().no_duplicates()
    }

    /// The definition of `label`, if any.
    pub open spec fn lookup(&self, label: Seq<char>) -> Option<(Seq<char>, Option<Seq<char>>)> {
        if self.labels().contains(label) {
            Some(def_view(self.entries@[self.labels().index_of(label)].1))
        } else {
            None
        }
    }

    pub fn new() -> (r: Self)
        ensures
            r.wf(),
            r.labels() == Seq::<Seq<char>>::empty(),
            r.defs() == Seq::<(Seq<char>, (Seq<char>, Option<Seq<char>>))>::empty(),
    {
        let r = LRDTable { entries: Vec::new() };
        assert(r.labels() =~= Seq::<Seq<char>>::empty());
        assert(r.defs() =~= Seq::<(Seq<char>, (Seq<char>, Option<Seq<char>>))>::empty());
        r
    }

    fn find(&self, label: &String) -> (r: Option<usize>)
        ensures
            r matches Some(i) ==> i < self.entries@.len() && self.labels()[i as int] == label@ && forall|j: int|
                0 <= j < i ==> #[trigger] self.labels()[j] != label@,
            r is None ==> !self.labels().contains(label@),
    {
        let mut i: usize = 0;
        while i < self.entries.len()
            invariant
                i <= self.entries@.len(),
                forall|j: int| 0 <= j < i ==> #[trigger] self.labels()[j] != label@,
            decreases self.entries@.len() - i,
        {
            if self.entries[i].0 == *label {
                return Some(i);
            }
            i = i + 1;
        }
        None
    }

    pub fn contains_key(&self, label: &String) -> (r: bool)
        ensures
            r == self.labels().contains(label@),
    {
        self.find(label).is_some()
    }

    pub fn get(&self, label: &String) -> (r: Option<&LinkDefinition>)
        requires
            self.wf(),
        ensures
            match self.lookup(label@) {
                Some(v) => r matches Some(d) && def_view(*d) == v,
                None => r is None,
            },
    {
        match self.find(label) {
            Some(i) => {
                proof {
                    let j = self.labels().index_of(label@);
                    assert(self.labels()[j] == label@);
                    assert(self.labels()[i as int] == label@);
                }
                Some(&self.entries[i].1)
            },
            None => None,
        }
    }

    /// Adds a definition unless its label is already defined.
    pub fn entry_or_insert(&mut self, label: String, def: LinkDefinition)
        requires
            old(self).wf(),
        ensures
            final(self).wf(),
            old(self).labels().contains(label@) ==> final(self).labels() == old(self).labels()
                && forall|l: Seq<char>| #[trigger] final(self).lookup(l) == old(self).lookup(l),
            !old(self).labels().contains(label@) ==> final(self).labels() == old(self).labels().push(label@)
                && final(self).lookup(label@) == Some(def_view(def))
                && forall|l: Seq<char>| l != label@ ==> #[trigger] final(self).lookup(l) == old(self).lookup(l),
            final(self).defs() == spec_define(old(self).defs(), label@, def_view(def)),
    {
        proof {
            assert(def_labels(self.defs()) =~= self.labels());
        }
        if self.find(&label).is_none() {
            let ghost lv = label@;
            let ghost dv = def_view(def);
            let ghost old_labels = self.labels();
            let ghost old_defs = self.defs();
            self.entries.push((label, def));
            proof {
                assert(self.defs() =~= old_defs.push((lv, dv)));
                assert(self.labels() =~= old_labels.push(lv));
                assert(self.labels().no_duplicates());
                assert forall|l: Seq<char>| l != lv implies #[trigger] self.lookup(l) == old(self).lookup(l) by {
                    if old_labels.contains(l) {
                        let j = old_labels.index_of(l);
                        assert(self.labels()[j] == l);
                        assert(self.labels().index_of(l) == j);
                    }
                }
                assert(self.labels()[old_labels.len() as int] == lv);
                assert(self.labels().index_of(lv) == old_labels.len());
            }
        }
    }
}

/// Once a label is defined, defining it again changes nothing: the first definition wins.
pub proof fn law_first_definition_wins(
    defs: Seq<(Seq<char>, (Seq<char>, Option<Seq<char>>))>,
    label: Seq<char>,
    d1: (Seq<char>, Option<Seq<char>>),
    d2: (Seq<char>, Option<Seq<char>>),
)
    ensures
        def_labels(spec_define(defs, label, d1)).contains(label),
        spec_define(spec_define(defs, label, d1), label, d2) == spec_define(defs, label, d1),
{
    if !def_labels(defs).contains(label) {
        let after = defs.push((label, d1));
        assert(def_labels(after)[defs.len() as int] == label);
    }
}

} // verus!

verus! {

/// A run of definitions only ever appends: what was defined before keeps its definition, and
/// every label of the run is defined afterwards.
pub proof fn law_definitions_accumulate(
    defs: Seq<(Seq<char>, (Seq<char>, Option<Seq<char>>))>,
    new: Seq<(Seq<char>, (Seq<char>, Option<Seq<char>>))>,
)
    ensures
        defs.is_prefix_of(spec_define_all(defs, new)),
        forall|i: int| 0 <= i < new.len() ==> def_labels(spec_define_all(defs, new)).contains(#[trigger] new[i].0),
    decreases new.len(),
{
    if new.len() > 0 {
        let d1 = spec_define(defs, new[0].0, new[0].1);
        let rest = new.skip(1);
        law_definitions_accumulate(d1, rest);
        law_first_definition_wins(defs, new[0].0, new[0].1, new[0].1);
        let all = spec_define_all(d1, rest);
        assert(defs.is_prefix_of(d1));
        assert(defs.is_prefix_of(all)) by {
            assert forall|k: int| 0 <= k < defs.len() implies defs[k] == all[k] by {
                assert(d1[k] == defs[k]);
                assert(all[k] == d1[k]);
            }
        }
        assert forall|i: int| 0 <= i < new.len() implies def_labels(all).contains(#[trigger] new[i].0) by {
            if i == 0 {
                let j = def_labels(d1).index_of(new[0].0);
                assert(def_labels(d1)[j] == new[0].0);
                assert(all[j] == d1[j]);
                assert(def_labels(all)[j] == new[0].0);
            } else {
                assert(rest[i - 1] == new[i]);
            }
        }
    }
}

} // verus!
