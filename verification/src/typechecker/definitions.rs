//! What the bytes of a document stand for.

use crate::strings::str_eq;
use rangemap::RangeInclusiveMap;
use vstd::prelude::*;

verus! {

/// What a stretch of a document stands for.
#[allow(inconsistent_fields)]
#[derive(Debug)]
pub enum DefinitionKind {
    Derive { path: String },
    Selector { type_definition: Vec<String>, hint: String },
    Scope { type_definition: Vec<String> },
    Assignment { property_name: String, type_definition: Vec<String> },
    EnumName,
    FilteredEnumName { enum_name: String },
    EnumVariant { enum_name: String },
    Declaration,
    Token { name: String, is_static: bool },
}

/// What a [`DefinitionKind`] holds.
#[allow(inconsistent_fields)]
pub enum DefinitionView {
    Derive { path: Seq<char> },
    Selector { type_definition: Seq<Seq<char>>, hint: Seq<char> },
    Scope { type_definition: Seq<Seq<char>> },
    Assignment { property_name: Seq<char>, type_definition: Seq<Seq<char>> },
    EnumName,
    FilteredEnumName { enum_name: Seq<char> },
    EnumVariant { enum_name: Seq<char> },
    Declaration,
    Token { name: Seq<char>, is_static: bool },
}

/// The characters of several strings.
pub open spec fn names_view(names: Seq<String>) -> Seq<Seq<char>> {
    Seq::new(names.len(), |i: int| names[i]@)
}

impl DeepView for DefinitionKind {
    type V = DefinitionView;

    open spec fn deep_view(&self) -> DefinitionView {
        match self {
            DefinitionKind::Derive { path } => DefinitionView::Derive { path: path@ },
            DefinitionKind::Selector { type_definition, hint } => DefinitionView::Selector {
                type_definition: names_view(type_definition@),
                hint: hint@,
            },
            DefinitionKind::Scope { type_definition } => DefinitionView::Scope {
                type_definition: names_view(type_definition@),
            },
            DefinitionKind::Assignment { property_name, type_definition } =>
            DefinitionView::Assignment {
                property_name: property_name@,
                type_definition: names_view(type_definition@),
            },
            DefinitionKind::EnumName => DefinitionView::EnumName,
            DefinitionKind::FilteredEnumName { enum_name } => DefinitionView::FilteredEnumName {
                enum_name: enum_name@,
            },
            DefinitionKind::EnumVariant { enum_name } => DefinitionView::EnumVariant {
                enum_name: enum_name@,
            },
            DefinitionKind::Declaration => DefinitionView::Declaration,
            DefinitionKind::Token { name, is_static } => DefinitionView::Token {
                name: name@,
                is_static: *is_static,
            },
        }
    }
}

/// The names with `separator` between them.
pub open spec fn joined(names: Seq<Seq<char>>, separator: Seq<char>) -> Seq<char>
    decreases names.len(),
{
    if names.len() == 0 {
        Seq::empty()
    } else if names.len() == 1 {
        names[0]
    } else {
        joined(names.drop_last(), separator) + separator + names.last()
    }
}

/// The definition of a selector that selects the given classes.
pub open spec fn selector_view(classes: Seq<Seq<char>>) -> DefinitionView {
    DefinitionView::Selector { type_definition: classes, hint: joined(classes, " | "@) }
}

/// Joins names.
pub fn join_names(names: &Vec<String>, separator: &str) -> (r: String)
    ensures
        r@ == joined(names_view(names@), separator@),
{
    let mut out = String::new();
    let mut i: usize = 0;
    while i < names.len()
        invariant
            i <= names@.len(),
            out@ == joined(names_view(names@).take(i as int), separator@),
        decreases names@.len() - i,
    {
        let ghost done = names_view(names@).take(i as int);
        let ghost next = names_view(names@).take(i + 1);
        assert(next.drop_last() =~= done);
        assert(next.last() == names@[i as int]@);
        if i > 0 {
            out.append(separator);
        } else {
            assert(out@ =~= Seq::empty());
        }
        out.append(names[i].as_str());
        i += 1;
        assert(out@ =~= joined(next, separator@));
    }
    assert(names_view(names@).take(i as int) =~= names_view(names@));
    out
}

/// Copies names.
pub fn clone_names(names: &Vec<String>) -> (r: Vec<String>)
    ensures
        names_view(r@) == names_view(names@),
{
    let mut out: Vec<String> = Vec::new();
    let mut i: usize = 0;
    while i < names.len()
        invariant
            i <= names@.len(),
            out@.len() == i,
            forall|j: int| 0 <= j < i ==> out@[j]@ == names@[j]@,
        decreases names@.len() - i,
    {
        out.push(names[i].clone());
        i += 1;
    }
    assert(names_view(out@) =~= names_view(names@));
    out
}

fn names_eq(a: &Vec<String>, b: &Vec<String>) -> (r: bool)
    ensures
        r == (names_view(a@) == names_view(b@)),
{
    if a.len() != b.len() {
        assert(names_view(a@).len() != names_view(b@).len());
        return false;
    }
    let mut i: usize = 0;
    while i < a.len()
        invariant
            i <= a@.len(),
            a@.len() == b@.len(),
            forall|j: int| 0 <= j < i ==> a@[j]@ == b@[j]@,
        decreases a@.len() - i,
    {
        if !str_eq(a[i].as_str(), b[i].as_str()) {
            assert(names_view(a@)[i as int] != names_view(b@)[i as int]);
            return false;
        }
        i += 1;
    }
    assert(names_view(a@) =~= names_view(b@));
    true
}

impl DefinitionKind {
    fn selector_hint(classes: &Vec<String>) -> (r: String)
        ensures
            r@ == joined(names_view(classes@), " | "@),
    {
        join_names(classes, " | ")
    }

    /// The definition of a selector, with the classes as its hint.
    pub fn selector(type_definition: Vec<String>) -> (r: Self)
        ensures
            r.deep_view() == selector_view(names_view(type_definition@)),
    {
        let hint = Self::selector_hint(&type_definition);
        DefinitionKind::Selector { type_definition, hint }
    }

    /// Whether two definitions say the same.
    pub fn same(&self, other: &DefinitionKind) -> (r: bool)
        ensures
            r == (self.deep_view() == other.deep_view()),
    {
        match (self, other) {
            (DefinitionKind::Derive { path: a }, DefinitionKind::Derive { path: b }) => str_eq(
                a.as_str(),
                b.as_str(),
            ),
            (
                DefinitionKind::Selector { type_definition: a, hint: x },
                DefinitionKind::Selector { type_definition: b, hint: y },
            ) => names_eq(a, b) && str_eq(x.as_str(), y.as_str()),
            (
                DefinitionKind::Scope { type_definition: a },
                DefinitionKind::Scope { type_definition: b },
            ) => names_eq(a, b),
            (
                DefinitionKind::Assignment { property_name: x, type_definition: a },
                DefinitionKind::Assignment { property_name: y, type_definition: b },
            ) => str_eq(x.as_str(), y.as_str()) && names_eq(a, b),
            (DefinitionKind::EnumName, DefinitionKind::EnumName) => true,
            (
                DefinitionKind::FilteredEnumName { enum_name: a },
                DefinitionKind::FilteredEnumName { enum_name: b },
            ) => str_eq(a.as_str(), b.as_str()),
            (
                DefinitionKind::EnumVariant { enum_name: a },
                DefinitionKind::EnumVariant { enum_name: b },
            ) => str_eq(a.as_str(), b.as_str()),
            (DefinitionKind::Declaration, DefinitionKind::Declaration) => true,
            (
                DefinitionKind::Token { name: a, is_static: x },
                DefinitionKind::Token { name: b, is_static: y },
            ) => str_eq(a.as_str(), b.as_str()) && *x == *y,
            _ => false,
        }
    }
}

/// `rangemap::RangeInclusiveMap`, a map from ranges of keys to values.
#[verifier::external_type_specification]
#[verifier::external_body]
#[verifier::reject_recursive_types(K)]
#[verifier::reject_recursive_types(V)]
#[verifier::reject_recursive_types(StepFnsT)]
pub struct ExRangeInclusiveMap<K, V, StepFnsT>(RangeInclusiveMap<K, V, StepFnsT>);

/// The value of every key that a range map covers.
pub uninterp spec fn range_map_entries(map: &RangeInclusiveMap<usize, usize>) -> Map<usize, usize>;

/// Whether `start..=end` is the longest stretch around `key` of keys with the same value.
pub open spec fn is_run<V>(entries: Map<usize, V>, key: usize, start: usize, end: usize) -> bool {
    &&& start <= key <= end
    &&& forall|k: usize|
        start <= k <= end ==> #[trigger] entries.dom().contains(k) && entries[k] == entries[key]
    &&& start > 0 ==> !(entries.dom().contains((start - 1) as usize) && entries[(start - 1) as usize]
        == entries[key])
    &&& end < usize::MAX ==> !(entries.dom().contains((end + 1) as usize) && entries[(end
        + 1) as usize] == entries[key])
}

/// Calls `RangeInclusiveMap::new`, which makes a map without entries.
#[verifier::external_body]
fn range_map_new() -> (r: RangeInclusiveMap<usize, usize>)
    ensures
        forall|k: usize| !range_map_entries(&r).dom().contains(k),
{
    RangeInclusiveMap::new()
}

/// Calls `RangeInclusiveMap::insert`, which gives all keys of the range the value and leaves
/// the others as they are. It panics where the range is backwards.
#[verifier::external_body]
fn range_map_insert(map: &mut RangeInclusiveMap<usize, usize>, start: usize, end: usize, value: usize)
    requires
        start <= end,
    ensures
        range_map_entries(final(map)) == range_map_entries(old(map)).union_prefer_right(
            Map::new(|k: usize| start <= k <= end, |k: usize| value),
        ),
{
    map.insert(start..=end, value)
}

/// Calls `RangeInclusiveMap::get_key_value`: the value of a key, and the stored range that
/// the key lies in. Overlapping and adjacent ranges of one value are stored as one, so the
/// range is the longest around the key.
#[verifier::external_body]
fn range_map_get(map: &RangeInclusiveMap<usize, usize>, key: usize) -> (r: Option<
    (usize, usize, usize),
>)
    ensures
        match r {
            Some((start, end, value)) => range_map_entries(map).dom().contains(key)
                && range_map_entries(map)[key] == value && is_run(
                range_map_entries(map),
                key,
                start,
                end,
            ),
            None => !range_map_entries(map).dom().contains(key),
        },
{
    map.get_key_value(&key).map(|(range, value)| (*range.start(), *range.end(), *value))
}

/// What the bytes of a document stand for. A later definition of a byte replaces an
/// earlier one.
pub struct Definitions {
    /// The index of each covered byte's definition.
    map: RangeInclusiveMap<usize, usize>,
    /// The definitions, each once.
    kinds: Vec<DefinitionKind>,
}

/// The definitions with another one over `start..=end`. A backwards stretch covers nothing.
pub open spec fn defined(
    definitions: Map<usize, DefinitionView>,
    start: usize,
    end: usize,
    kind: DefinitionView,
) -> Map<usize, DefinitionView> {
    definitions.union_prefer_right(Map::new(|k: usize| start <= k <= end, |k: usize| kind))
}

impl View for Definitions {
    type V = Map<usize, DefinitionView>;

    closed spec fn view(&self) -> Map<usize, DefinitionView> {
        let ids = range_map_entries(&self.map);
        Map::new(
            |k: usize| ids.dom().contains(k),
            |k: usize| self.kinds@[ids[k] as int].deep_view(),
        )
    }
}

impl Definitions {
    /// Every index is that of a definition, and no definition occurs twice.
    #[verifier::type_invariant]
    spec fn wf(self) -> bool {
        &&& forall|k: usize| #[trigger]
            range_map_entries(&self.map).dom().contains(k) ==> range_map_entries(&self.map)[k]
                < self.kinds@.len()
        &&& forall|i: int, j: int|
            0 <= i < j < self.kinds@.len() ==> (#[trigger] self.kinds@[i]).deep_view() != (
            #[trigger] self.kinds@[j]).deep_view()
    }

    pub fn new() -> (r: Self)
        ensures
            r@ == Map::<usize, DefinitionView>::empty(),
    {
        let map = range_map_new();
        let r = Definitions { map, kinds: Vec::new() };
        assert(r@ =~= Map::<usize, DefinitionView>::empty());
        r
    }

    /// Defines the bytes from `start` to `end`, both of them included. A backwards stretch
    /// defines nothing.
    pub fn insert(&mut self, start: usize, end: usize, kind: DefinitionKind)
        ensures
            final(self)@ == defined(old(self)@, start, end, kind.deep_view()),
    {
        proof {
            use_type_invariant(&*self);
        }
        if start > end {
            assert(self@ =~= defined(old(self)@, start, end, kind.deep_view()));
            return;
        }
        let mut id: usize = 0;
        while id < self.kinds.len()
            invariant
                id <= self.kinds@.len(),
                *self == *old(self),
                forall|j: int| 0 <= j < id ==> self.kinds@[j].deep_view() != kind.deep_view(),
            ensures
                id <= self.kinds@.len(),
                *self == *old(self),
                forall|j: int| 0 <= j < id ==> self.kinds@[j].deep_view() != kind.deep_view(),
                id < self.kinds@.len() ==> self.kinds@[id as int].deep_view() == kind.deep_view(),
            decreases self.kinds@.len() - id,
        {
            if self.kinds[id].same(&kind) {
                break;
            }
            id += 1;
        }
        let ghost ids = range_map_entries(&self.map);
        let ghost kinds = self.kinds@;
        let mut map = range_map_new();
        let mut all: Vec<DefinitionKind> = Vec::new();
        std::mem::swap(&mut map, &mut self.map);
        std::mem::swap(&mut all, &mut self.kinds);
        if id == all.len() {
            all.push(kind);
        }
        range_map_insert(&mut map, start, end, id);
        *self = Definitions { map, kinds: all };
        assert(self@ =~= defined(old(self)@, start, end, kind.deep_view()));
    }

    /// What a byte stands for, and the stretch that it is part of.
    pub fn get_key_value(&self, key: usize) -> (r: Option<(usize, usize, &DefinitionKind)>)
        ensures
            match r {
                Some((start, end, kind)) => self@.dom().contains(key) && self@[key]
                    == kind.deep_view() && is_run(self@, key, start, end),
                None => !self@.dom().contains(key),
            },
    {
        proof {
            use_type_invariant(self);
        }
        match range_map_get(&self.map, key) {
            Some((start, end, id)) => {
                proof {
                    let ids = range_map_entries(&self.map);
                    assert forall|k: usize| start <= k <= end implies #[trigger] self@.dom().contains(
                        k,
                    ) && self@[k] == self@[key] by {
                        assert(ids.dom().contains(k));
                    }
                    if start > 0 && ids.dom().contains((start - 1) as usize) {
                        assert(ids[(start - 1) as usize] != id);
                        assert(ids[(start - 1) as usize] < self.kinds@.len());
                        assert(ids[key] < self.kinds@.len());
                    }
                    if end < usize::MAX && ids.dom().contains((end + 1) as usize) {
                        assert(ids[(end + 1) as usize] != id);
                        assert(ids[(end + 1) as usize] < self.kinds@.len());
                        assert(ids[key] < self.kinds@.len());
                    }
                }
                Some((start, end, &self.kinds[id]))
            },
            None => None,
        }
    }

    /// What a byte stands for.
    pub fn get(&self, key: usize) -> (r: Option<&DefinitionKind>)
        ensures
            match r {
                Some(kind) => self@.dom().contains(key) && self@[key] == kind.deep_view(),
                None => !self@.dom().contains(key),
            },
    {
        match self.get_key_value(key) {
            Some((_, _, kind)) => Some(kind),
            None => None,
        }
    }
}

/// A byte reads back what was last defined for it, and the others are as before.
pub proof fn lemma_defined_reads_back(
    definitions: Map<usize, DefinitionView>,
    start: usize,
    end: usize,
    kind: DefinitionView,
    byte: usize,
)
    ensures
        start <= byte <= end ==> defined(definitions, start, end, kind).dom().contains(byte)
            && defined(definitions, start, end, kind)[byte] == kind,
        !(start <= byte <= end) ==> (defined(definitions, start, end, kind).dom().contains(byte)
            <==> definitions.dom().contains(byte)),
        !(start <= byte <= end) && definitions.dom().contains(byte) ==> defined(
            definitions,
            start,
            end,
            kind,
        )[byte] == definitions[byte],
{
}

/// There is only one longest stretch around a byte.
pub proof fn lemma_run_is_unique<V>(
    entries: Map<usize, V>,
    key: usize,
    start: usize,
    end: usize,
    other_start: usize,
    other_end: usize,
)
    requires
        is_run(entries, key, start, end),
        is_run(entries, key, other_start, other_end),
    ensures
        start == other_start,
        end == other_end,
{
    if start < other_start {
        assert(entries.dom().contains((other_start - 1) as usize));
    }
    if other_start < start {
        assert(entries.dom().contains((start - 1) as usize));
    }
    if end < other_end {
        assert(entries.dom().contains((end + 1) as usize));
    }
    if other_end < end {
        assert(entries.dom().contains((other_end + 1) as usize));
    }
}

} // verus!
