//! The field schema: a fixed, load-time list of aggregate field descriptors.
//!
//! Each descriptor names one tracked component and says how a cell
//! aggregates it. The schema is immutable once constructed.

use vstd::prelude::*;

verus! {

/// How one schema field aggregates its component over a cell's occupants.
#[derive(Clone, Copy, PartialEq, Eq, Structural, Debug)]
pub enum FieldKind {
    /// Integer counter of occupants holding the component; read as a boolean
    /// presence flag (`count != 0`).
    CountBool,
    /// Sum of the component's value over occupants holding it.
    SumValue,
    /// Set of occupant ids holding the component, read through an
    /// "any one member" query.
    AnySet,
    /// Set of occupant ids holding the component, read through full
    /// enumeration.
    IdSet,
}

impl FieldKind {
    /// The persisted code of each kind.
    pub open spec fn spec_code(self) -> u8 {
        match self {
            FieldKind::CountBool => 0,
            FieldKind::SumValue => 1,
            FieldKind::AnySet => 2,
            FieldKind::IdSet => 3,
        }
    }

    /// Which kind, if any, a persisted code denotes.
    pub open spec fn spec_from_code(code: u8) -> Option<FieldKind> {
        if code == 0 {
            Some(FieldKind::CountBool)
        } else if code == 1 {
            Some(FieldKind::SumValue)
        } else if code == 2 {
            Some(FieldKind::AnySet)
        } else if code == 3 {
            Some(FieldKind::IdSet)
        } else {
            None
        }
    }

    pub fn code(&self) -> (c: u8)
        ensures
            c == self.spec_code(),
            Self::spec_from_code(c) == Some(*self),
    {
        match self {
            FieldKind::CountBool => 0,
            FieldKind::SumValue => 1,
            FieldKind::AnySet => 2,
            FieldKind::IdSet => 3,
        }
    }

    /// Decodes a persisted kind code. An unrecognized code is a
    /// configuration error and yields `None`.
    pub fn from_code(code: u8) -> (r: Option<FieldKind>)
        ensures
            r == Self::spec_from_code(code),
    {
        if code == 0 {
            Some(FieldKind::CountBool)
        } else if code == 1 {
            Some(FieldKind::SumValue)
        } else if code == 2 {
            Some(FieldKind::AnySet)
        } else if code == 3 {
            Some(FieldKind::IdSet)
        } else {
            None
        }
    }
}

/// One aggregate field descriptor: a name (doubling as the tracked
/// component's identity) and an aggregation kind.
pub struct FieldDef {
    pub name: String,
    pub kind: FieldKind,
}

/// The names of a sequence of descriptors, as character sequences.
pub open spec fn def_names(defs: Seq<FieldDef>) -> Seq<Seq<char>> {
    defs.map_values(|d: FieldDef| d.name@)
}

/// No two descriptors share a name.
pub open spec fn names_distinct(names: Seq<Seq<char>>) -> bool {
    forall|i: int, j: int| 0 <= i < j < names.len() ==> names[i] != names[j]
}

/// An immutable list of aggregate field descriptors.
pub struct Schema {
    pub names: Vec<String>,
    pub kinds: Vec<FieldKind>,
}

impl Schema {
    /// The schema holds one name per kind and the names are distinct.
    pub open spec fn wf(self) -> bool {
        &&& self.names@.len() == self.kinds@.len()
        &&& names_distinct(self.names@.map_values(|s: String| s@))
    }

    pub open spec fn spec_num_fields(self) -> int {
        self.kinds@.len() as int
    }

    /// Builds a schema from descriptors. Duplicate field names are a fatal
    /// configuration error, reported as `None`.
    pub fn new(defs: Vec<FieldDef>) -> (r: Option<Schema>)
        ensures
            r is Some <==> names_distinct(def_names(defs@)),
            r matches Some(s) ==> {
                &&& s.wf()
                &&& s.names@.map_values(|n: String| n@) == def_names(defs@)
                &&& s.kinds@ == defs@.map_values(|d: FieldDef| d.kind)
            },
    {
        let mut names: Vec<String> = Vec::new();
        let mut kinds: Vec<FieldKind> = Vec::new();
        let mut i: usize = 0;
        while i < defs.len()
            invariant
                0 <= i <= defs@.len(),
                names@.map_values(|s: String| s@) =~= def_names(defs@).take(i as int),
                kinds@ =~= defs@.map_values(|d: FieldDef| d.kind).take(i as int),
                names_distinct(def_names(defs@).take(i as int)),
            decreases defs@.len() - i,
        {
            let candidate = &defs[i].name;
            assert(names@.map_values(|s: String| s@).len() == names@.len());
            let mut j: usize = 0;
            while j < names.len()
                invariant
                    0 <= j <= names@.len(),
                    names@.len() == i as int,
                    names@.map_values(|s: String| s@) =~= def_names(defs@).take(i as int),
                    0 <= i < defs@.len(),
                    candidate == &defs@[i as int].name,
                    forall|k: int| 0 <= k < j ==> names@[k]@ != candidate@,
                decreases names@.len() - j,
            {
                if names[j].eq(candidate) {
                    assert(names@.map_values(|s: String| s@)[j as int] == names@[j as int]@);
                    assert(def_names(defs@)[i as int] == defs@[i as int].name@);
                    assert(def_names(defs@)[j as int] == def_names(defs@)[i as int]);
                    assert(!names_distinct(def_names(defs@)));
                    return None;
                }
                j += 1;
            }
            names.push(candidate.clone());
            kinds.push(defs[i].kind);
            i += 1;
        }
        let s = Schema { names, kinds };
        assert(def_names(defs@).take(defs@.len() as int) =~= def_names(defs@));
        assert(defs@.map_values(|d: FieldDef| d.kind).take(defs@.len() as int) =~= defs@.map_values(
            |d: FieldDef| d.kind,
        ));
        Some(s)
    }

    pub fn num_fields(&self) -> (n: usize)
        ensures
            n == self.spec_num_fields(),
    {
        self.kinds.len()
    }

    pub fn kind(&self, f: usize) -> (k: FieldKind)
        requires
            f < self.spec_num_fields(),
        ensures
            k == self.kinds@[f as int],
    {
        self.kinds[f]
    }

    pub fn name(&self, f: usize) -> (n: &String)
        requires
            self.wf(),
            f < self.spec_num_fields(),
        ensures
            n == &self.names@[f as int],
    {
        &self.names[f]
    }
}

} // verus!
