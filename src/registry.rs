//! Descriptions of target types, and the registry that holds them.
use vstd::prelude::*;

verus! {

/// The primitive shapes a target type can have.
#[derive(Clone, Copy, PartialEq, Eq, Structural, Debug)]
pub enum Primitive {
    Bool,
    Char,
    Str,
    U8,
    U16,
    U32,
    U64,
    U128,
    U256,
    I8,
    I16,
    I32,
    I64,
    I128,
    I256,
}

/// The size of each chunk that the bits of a bit sequence are stored in.
#[derive(Clone, Copy, PartialEq, Eq, Structural, Debug)]
pub enum BitsStoreFormat {
    U8,
    U16,
    U32,
    U64,
}

/// The order in which bits are written into each chunk.
#[derive(Clone, Copy, PartialEq, Eq, Structural, Debug)]
pub enum BitsOrderFormat {
    Lsb0,
    Msb0,
}

/// One field of a composite type or of a variant: an optional name and the
/// identifier of the field's type.
#[derive(Debug)]
pub struct Field {
    pub name: Option<String>,
    pub id: u32,
}

/// One variant of a sum type: its name, the tag byte written before its
/// fields, and its fields.
#[derive(Debug)]
pub struct VariantDef {
    pub name: String,
    pub index: u8,
    pub fields: Vec<Field>,
}

/// The shape of a target type.
#[derive(Debug)]
pub enum TypeDef {
    /// A struct-like type with named or unnamed fields.
    Composite(Vec<Field>),
    /// A sum type.
    Variant(Vec<VariantDef>),
    /// A sequence of any length of elements of one type.
    Sequence(u32),
    /// An array of fixed length of elements of one type.
    Array(u32, u32),
    /// A tuple of the given member types.
    Tuple(Vec<u32>),
    /// A primitive type.
    Primitive(Primitive),
    /// A compact-encoded wrapper around the given type.
    Compact(u32),
    /// A sequence of bits, stored and ordered as given.
    BitSequence(BitsStoreFormat, BitsOrderFormat),
}

/// The name of a field as used for matching by name: an unnamed field is
/// keyed by the empty string.
pub open spec fn key_of(name: Option<String>) -> Seq<char> {
    match name {
        Some(s) => s@,
        None => Seq::empty(),
    }
}

/// Whether type `c` is referred to by the type description `d`.
pub open spec fn is_child(d: TypeDef, c: u32) -> bool {
    match d {
        TypeDef::Composite(fs) => exists|k: int| #![trigger fs@[k]] 0 <= k < fs@.len() && fs@[k].id == c,
        TypeDef::Variant(vs) => exists|k: int, j: int|
            #![trigger vs@[k].fields@[j]]
            0 <= k < vs@.len() && 0 <= j < vs@[k].fields@.len() && vs@[k].fields@[j].id == c,
        TypeDef::Sequence(e) => e == c,
        TypeDef::Array(e, _) => e == c,
        TypeDef::Tuple(ids) => exists|k: int| #![trigger ids@[k]] 0 <= k < ids@.len() && ids@[k] == c,
        TypeDef::Compact(e) => e == c,
        _ => false,
    }
}

/// `r` ranks the types so that every type ranks above each type it refers to.
pub open spec fn ranked(types: Seq<TypeDef>, r: Seq<nat>) -> bool {
    &&& r.len() == types.len()
    &&& forall|i: int, c: u32|
        0 <= i < types.len() && (c as int) < types.len() && #[trigger] is_child(types[i], c)
            ==> r[c as int] < r[i]
}

/// No type refers to itself, directly or through other types.
pub open spec fn acyclic(types: Seq<TypeDef>) -> bool {
    exists|r: Seq<nat>| ranked(types, r)
}

/// Some ranking of an acyclic registry.
pub open spec fn rank_of(types: Seq<TypeDef>) -> Seq<nat> {
    choose|r: Seq<nat>| ranked(types, r)
}

/// A measure that strictly falls from a type to each type it refers to.
pub open spec fn depth(types: Seq<TypeDef>, id: u32) -> nat {
    if (id as int) < types.len() {
        rank_of(types)[id as int] + 1
    } else {
        0
    }
}

/// The description of type `id`, if the registry has one.
pub open spec fn lookup(types: Seq<TypeDef>, id: u32) -> Option<TypeDef> {
    if (id as int) < types.len() {
        Some(types[id as int])
    } else {
        None
    }
}

/// In an acyclic registry, a type lies deeper than each type it refers to.
pub proof fn lemma_depth_child(types: Seq<TypeDef>, id: u32, c: u32)
    requires
        acyclic(types),
        (id as int) < types.len(),
        is_child(types[id as int], c),
    ensures
        depth(types, c) < depth(types, id),
{
    let r = rank_of(types);
    assert(ranked(types, r));
    if (c as int) < types.len() {
        assert(is_child(types[id as int], c));
    }
}

/// A member of a tuple lies deeper than the tuple.
pub proof fn lemma_depth_tuple_member(types: Seq<TypeDef>, id: u32, k: int)
    requires
        acyclic(types),
        lookup(types, id) matches Some(TypeDef::Tuple(ids)) && 0 <= k < ids@.len(),
    ensures
        depth(types, types[id as int]->Tuple_0@[k]) < depth(types, id),
{
    let ids = types[id as int]->Tuple_0;
    let c = ids@[k];
    assert(0 <= k < ids@.len() && ids@[k] == c);
    assert(is_child(types[id as int], c));
    lemma_depth_child(types, id, c);
}

/// The type of a field of a composite lies deeper than the composite.
pub proof fn lemma_depth_composite_field(types: Seq<TypeDef>, id: u32, k: int)
    requires
        acyclic(types),
        lookup(types, id) matches Some(TypeDef::Composite(fs)) && 0 <= k < fs@.len(),
    ensures
        depth(types, types[id as int]->Composite_0@[k].id) < depth(types, id),
{
    let fs = types[id as int]->Composite_0;
    let c = fs@[k].id;
    assert(0 <= k < fs@.len() && fs@[k].id == c);
    assert(is_child(types[id as int], c));
    lemma_depth_child(types, id, c);
}

/// A type registry: type descriptions indexed by their identifiers. No type
/// refers to itself, directly or through other types.
#[derive(Debug)]
pub struct Registry {
    types: Vec<TypeDef>,
}

impl View for Registry {
    type V = Seq<TypeDef>;

    closed spec fn view(&self) -> Seq<TypeDef> {
        self.types@
    }
}

/// Whether every type that `d` refers to, and that the registry holds, is
/// marked in `placed`.
spec fn children_placed(d: TypeDef, placed: Seq<bool>) -> bool {
    forall|c: u32| (c as int) < placed.len() && #[trigger] is_child(d, c) ==> placed[c as int]
}

fn id_placed(c: u32, placed: &Vec<bool>) -> (r: bool)
    ensures
        r == ((c as int) < placed@.len() ==> placed@[c as int]),
{
    if (c as usize) < placed.len() {
        placed[c as usize]
    } else {
        true
    }
}

fn fields_placed(fs: &Vec<Field>, placed: &Vec<bool>) -> (r: bool)
    ensures
        r == forall|k: int|
            0 <= k < fs@.len() ==> ((#[trigger] fs@[k].id as int) < placed@.len()
                ==> placed@[fs@[k].id as int]),
{
    let mut k: usize = 0;
    while k < fs.len()
        invariant
            k <= fs@.len(),
            forall|j: int|
                0 <= j < k ==> ((#[trigger] fs@[j].id as int) < placed@.len()
                    ==> placed@[fs@[j].id as int]),
        decreases fs@.len() - k,
    {
        if !id_placed(fs[k].id, placed) {
            return false;
        }
        k = k + 1;
    }
    true
}

fn all_children_placed(d: &TypeDef, placed: &Vec<bool>) -> (r: bool)
    ensures
        r == children_placed(*d, placed@),
{
    match d {
        TypeDef::Composite(fs) => {
            let r = fields_placed(fs, placed);
            proof {
                assert(d->Composite_0@ == fs@);
                if r {
                    assert forall|c: u32| (c as int) < placed@.len() && #[trigger] is_child(*d, c) implies placed@[c as int] by {
                        let k = choose|k: int| 0 <= k < fs@.len() && fs@[k].id == c;
                        assert(fs@[k].id == c);
                    }
                    assert(children_placed(*d, placed@));
                }
                if !r {
                    let k = choose|k: int|
                        0 <= k < fs@.len() && !((#[trigger] fs@[k].id as int) < placed@.len()
                            ==> placed@[fs@[k].id as int]);
                    let c = fs@[k].id;
                    assert(d->Composite_0@ == fs@);
                    assert(0 <= k < d->Composite_0@.len() && d->Composite_0@[k].id == c);
                    assert(is_child(*d, c));
                }
            }
            r
        },
        TypeDef::Variant(vs) => {
            let mut k: usize = 0;
            while k < vs.len()
                invariant
                    *d == TypeDef::Variant(*vs),
                    k <= vs@.len(),
                    forall|i: int, j: int|
                        0 <= i < k && 0 <= j < vs@[i].fields@.len() ==> ((
                        #[trigger] vs@[i].fields@[j].id as int) < placed@.len()
                            ==> placed@[vs@[i].fields@[j].id as int]),
                decreases vs@.len() - k,
            {
                proof {
                    assert(vs@[k as int] == vs[k as int]);
                }
                if !fields_placed(&vs[k].fields, placed) {
                    proof {
                        let fs = vs@[k as int].fields;
                        let j = choose|j: int|
                            0 <= j < fs@.len() && !((#[trigger] fs@[j].id as int) < placed@.len()
                                ==> placed@[fs@[j].id as int]);
                        let c = vs@[k as int].fields@[j].id;
                        assert(d->Variant_0@ == vs@);
                        assert(0 <= k < d->Variant_0@.len() && 0 <= j < d->Variant_0@[k as int].fields@.len()
                            && d->Variant_0@[k as int].fields@[j].id == c);
                        assert(is_child(*d, c));
                    }
                    return false;
                }
                k = k + 1;
            }
            proof {
                assert(d->Variant_0@ == vs@);
                assert forall|c: u32| (c as int) < placed@.len() && #[trigger] is_child(*d, c) implies placed@[c as int] by {
                    let (i, j) = choose|i: int, j: int|
                        0 <= i < vs@.len() && 0 <= j < vs@[i].fields@.len() && vs@[i].fields@[j].id == c;
                    assert(vs@[i].fields@[j].id == c);
                }
            }
            true
        },
        TypeDef::Sequence(e) => {
            proof {
                assert(is_child(*d, *e));
            }
            id_placed(*e, placed)
        },
        TypeDef::Array(e, _) => {
            proof {
                assert(is_child(*d, *e));
            }
            id_placed(*e, placed)
        },
        TypeDef::Tuple(ids) => {
            let mut k: usize = 0;
            while k < ids.len()
                invariant
                    *d == TypeDef::Tuple(*ids),
                    k <= ids@.len(),
                    forall|j: int|
                        0 <= j < k ==> ((#[trigger] ids@[j] as int) < placed@.len()
                            ==> placed@[ids@[j] as int]),
                decreases ids@.len() - k,
            {
                if !id_placed(ids[k], placed) {
                    proof {
                        let c = ids@[k as int];
                        assert(d->Tuple_0@ == ids@);
                        assert(0 <= k < d->Tuple_0@.len() && d->Tuple_0@[k as int] == c);
                        assert(is_child(*d, c));
                    }
                    return false;
                }
                k = k + 1;
            }
            proof {
                assert(d->Tuple_0@ == ids@);
                assert forall|c: u32| (c as int) < placed@.len() && #[trigger] is_child(*d, c) implies placed@[c as int] by {
                    let j = choose|j: int| 0 <= j < ids@.len() && ids@[j] == c;
                    assert(ids@[j] == c);
                }
            }
            true
        },
        TypeDef::Compact(e) => {
            proof {
                assert(is_child(*d, *e));
            }
            id_placed(*e, placed)
        },
        _ => true,
    }
}

/// If every unplaced type refers to some unplaced type, no ranking exists.
proof fn lemma_unplaced_unranked(types: Seq<TypeDef>, placed: Seq<bool>, r: Seq<nat>, i: int)
    requires
        placed.len() == types.len(),
        0 <= i < types.len(),
        !placed[i],
        forall|j: int| 0 <= j < types.len() && !placed[j] ==> !children_placed(#[trigger] types[j], placed),
    ensures
        !ranked(types, r),
{
    if ranked(types, r) {
        lemma_unplaced_rank_bound(types, placed, r, (r[i] + 1) as nat);
    }
}

proof fn lemma_unplaced_rank_bound(types: Seq<TypeDef>, placed: Seq<bool>, r: Seq<nat>, m: nat)
    requires
        placed.len() == types.len(),
        ranked(types, r),
        forall|j: int| 0 <= j < types.len() && !placed[j] ==> !children_placed(#[trigger] types[j], placed),
    ensures
        forall|j: int| 0 <= j < types.len() && !placed[j] ==> r[j] >= m,
    decreases m,
{
    if m > 0 {
        lemma_unplaced_rank_bound(types, placed, r, (m - 1) as nat);
        assert forall|j: int| 0 <= j < types.len() && !placed[j] implies r[j] >= m by {
            assert(!children_placed(types[j], placed));
            let c = choose|c: u32| (c as int) < placed.len() && #[trigger] is_child(types[j], c) && !placed[c as int];
            assert(r[c as int] < r[j]);
        }
    }
}

impl Registry {
    /// The types refer to each other without a cycle.
    #[verifier::type_invariant]
    pub closed spec fn inv(&self) -> bool {
        acyclic(self.types@)
    }

    /// A registry that meets its invariant is acyclic.
    pub proof fn lemma_acyclic(self)
        requires
            self.inv(),
        ensures
            acyclic(self@),
    {
    }

    /// Build a registry from type descriptions, type `i` being `types[i]`.
    /// Returns `None` when some type refers to itself, directly or through
    /// other types.
    pub fn new(types: Vec<TypeDef>) -> (r: Option<Registry>)
        ensures
            r is Some <==> acyclic(types@),
            r matches Some(reg) ==> reg@ == types@,
    {
        let n = types.len();
        let mut placed: Vec<bool> = vec![false; n];
        let ghost mut rank: Seq<nat> = Seq::new(n as nat, |i: int| 0nat);
        let mut count: usize = 0;
        let mut progress = true;
        proof {
            lemma_filter_all_false(placed@);
        }
        while progress
            invariant
                n == types@.len(),
                placed@.len() == n,
                rank.len() == n,
                count <= n,
                count == placed@.filter(|b: bool| b).len(),
                forall|i: int| 0 <= i < n && placed@[i] ==> rank[i] < count,
                forall|i: int, c: u32|
                    0 <= i < n && placed@[i] && (c as int) < n && #[trigger] is_child(types@[i], c)
                        ==> placed@[c as int] && rank[c as int] < rank[i],
                !progress ==> forall|j: int|
                    0 <= j < n && !placed@[j] ==> !children_placed(#[trigger] types@[j], placed@),
            decreases n - count, if progress { 1int } else { 0int },
        {
            progress = false;
            let ghost start = count;
            let mut i: usize = 0;
            while i < n
                invariant
                    n == types@.len(),
                    placed@.len() == n,
                    rank.len() == n,
                    start <= count <= n,
                    count == placed@.filter(|b: bool| b).len(),
                    forall|j: int| 0 <= j < n && placed@[j] ==> rank[j] < count,
                    forall|j: int, c: u32|
                        0 <= j < n && placed@[j] && (c as int) < n && #[trigger] is_child(types@[j], c)
                            ==> placed@[c as int] && rank[c as int] < rank[j],
                    !progress ==> count == start,
                    progress ==> count > start,
                    !progress ==> forall|j: int|
                        0 <= j < i && !placed@[j] ==> !children_placed(#[trigger] types@[j], placed@),
                    i <= n,
                decreases n - i,
            {
                if !placed[i] && all_children_placed(&types[i], &placed) {
                    proof {
                        lemma_filter_set_true(placed@, i as int);
                        rank = rank.update(i as int, count as nat);
                    }
                    placed.set(i, true);
                    count = count + 1;
                    progress = true;
                }
                i = i + 1;
            }
            if progress {
                assert(count > start);
            }
        }
        if count == n {
            proof {
                lemma_all_placed(placed@);
                assert(ranked(types@, rank));
            }
            Some(Registry { types })
        } else {
            proof {
                if acyclic(types@) {
                    let r = choose|r: Seq<nat>| ranked(types@, r);
                    let i = lemma_some_unplaced(placed@);
                    lemma_unplaced_unranked(types@, placed@, r, i);
                }
            }
            None
        }
    }

    /// The description of type `id`, if there is one.
    pub fn resolve(&self, id: u32) -> (r: Option<&TypeDef>)
        ensures
            r is Some <==> (id as int) < self@.len(),
            r matches Some(d) ==> lookup(self@, id) == Some(*d),
    {
        if (id as usize) < self.types.len() {
            Some(&self.types[id as usize])
        } else {
            None
        }
    }

    /// The number of types held.
    pub fn len(&self) -> (r: usize)
        ensures
            r == self@.len(),
    {
        self.types.len()
    }
}

proof fn lemma_filter_set_true(s: Seq<bool>, i: int)
    requires
        0 <= i < s.len(),
        !s[i],
    ensures
        s.update(i, true).filter(|b: bool| b).len() == s.filter(|b: bool| b).len() + 1,
    decreases s.len(),
{
    let t = s.update(i, true);
    let last = (s.len() - 1) as int;
    reveal(Seq::filter);
    if i == last {
        assert(t.drop_last() =~= s.drop_last());
    } else {
        lemma_filter_set_true(s.drop_last(), i);
        assert(t.drop_last() =~= s.drop_last().update(i, true));
    }
}

proof fn lemma_all_placed(s: Seq<bool>)
    requires
        s.filter(|b: bool| b).len() == s.len(),
    ensures
        forall|i: int| 0 <= i < s.len() ==> s[i],
    decreases s.len(),
{
    reveal(Seq::filter);
    if s.len() > 0 {
        let f = s.drop_last().filter(|b: bool| b);
        lemma_filter_len_le(s.drop_last());
        if !s.last() {
            assert(s.filter(|b: bool| b) == f);
        }
        lemma_all_placed(s.drop_last());
        assert forall|i: int| 0 <= i < s.len() implies s[i] by {
            if i < s.len() - 1 {
                assert(s[i] == s.drop_last()[i]);
            }
        }
    }
}

proof fn lemma_filter_all_false(s: Seq<bool>)
    requires
        forall|i: int| 0 <= i < s.len() ==> !s[i],
    ensures
        s.filter(|b: bool| b).len() == 0,
    decreases s.len(),
{
    reveal(Seq::filter);
    if s.len() > 0 {
        lemma_filter_all_false(s.drop_last());
    }
}

proof fn lemma_filter_len_le(s: Seq<bool>)
    ensures
        s.filter(|b: bool| b).len() <= s.len(),
    decreases s.len(),
{
    reveal(Seq::filter);
    if s.len() > 0 {
        lemma_filter_len_le(s.drop_last());
    }
}

proof fn lemma_some_unplaced(s: Seq<bool>) -> (i: int)
    requires
        s.filter(|b: bool| b).len() != s.len(),
    ensures
        0 <= i < s.len(),
        !s[i],
    decreases s.len(),
{
    reveal(Seq::filter);
    lemma_filter_len_le(s.drop_last());
    if s.len() == 0 {
        0
    } else if !s.last() {
        (s.len() - 1) as int
    } else {
        let j = lemma_some_unplaced(s.drop_last());
        j
    }
}

} // verus!
