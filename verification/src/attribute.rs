//! The attribute model: a typed buffer wrapped with an identity, a semantic
//! role, and a set of parent attribute identities forming a dependency DAG.

use vstd::prelude::*;
use vstd::arithmetic::power2::pow2;
use crate::buffer::{
    AttributeBuffer, ComponentDataType, MaybeInitAttributeBuffer, views_of, write_outcome,
};

verus! {

/// The errors the attribute model reports from checked operations.
#[derive(Clone, Copy, Debug, PartialEq, Eq, Structural)]
pub enum AttributeError {
    /// A typed write whose arity does not match the buffer's component count.
    WrongArity,
    /// A typed write with a component not representable in the scalar size.
    WrongComponentType,
    /// An indexed access past the number of values.
    OutOfBounds,
    /// A parent reference to an attribute that does not exist yet.
    UnknownParent(AttributeId),
    /// A role whose minimum dependency is not covered by the parents.
    MissingDependency(AttributeType),
    /// A promotion of a maybe-initialized attribute with an unwritten cell.
    UninitializedCell,
}

/// An opaque, copyable identifier: an index into the enclosing attribute
/// collection.
#[derive(Clone, Copy, Debug, PartialEq, Eq, Structural)]
pub struct AttributeId(usize);

impl AttributeId {
    /// The index this identifier denotes.
    pub closed spec fn spec_value(&self) -> nat {
        self.0 as nat
    }

    pub fn new(id: usize) -> (r: Self)
        ensures
            r.spec_value() == id,
    {
        AttributeId(id)
    }

    /// Returns the id of the attribute.
    pub fn as_usize(&self) -> (r: usize)
        ensures
            r as nat == self.spec_value(),
    {
        self.0
    }
}

/// The closed set of semantic roles an attribute can play.
#[derive(Clone, Copy, Debug, PartialEq, Eq, Structural)]
pub enum AttributeType {
    Position,
    Normal,
    Color,
    TextureCoordinate,
    Tangent,
    Material,
    Joint,
    Weight,
    Connectivity,
    Custom,
}

impl AttributeType {
    /// The stable on-wire identifier of the role.
    pub open spec fn spec_id(self) -> int {
        match self {
            AttributeType::Position => 0,
            AttributeType::Normal => 1,
            AttributeType::Color => 2,
            AttributeType::TextureCoordinate => 3,
            AttributeType::Tangent => 4,
            AttributeType::Material => 5,
            AttributeType::Joint => 6,
            AttributeType::Weight => 7,
            AttributeType::Connectivity => 8,
            AttributeType::Custom => 9,
        }
    }

    /// The role a given on-wire identifier denotes, if any.
    pub open spec fn spec_from_id(id: int) -> Option<AttributeType> {
        if id == 0 {
            Some(AttributeType::Position)
        } else if id == 1 {
            Some(AttributeType::Normal)
        } else if id == 2 {
            Some(AttributeType::Color)
        } else if id == 3 {
            Some(AttributeType::TextureCoordinate)
        } else if id == 4 {
            Some(AttributeType::Tangent)
        } else if id == 5 {
            Some(AttributeType::Material)
        } else if id == 6 {
            Some(AttributeType::Joint)
        } else if id == 7 {
            Some(AttributeType::Weight)
        } else if id == 8 {
            Some(AttributeType::Connectivity)
        } else if id == 9 {
            Some(AttributeType::Custom)
        } else {
            None
        }
    }

    /// The roles that must appear among the parents of an attribute with
    /// this role.
    pub open spec fn spec_minimum_dependency(self) -> Seq<AttributeType> {
        match self {
            AttributeType::Normal => seq![AttributeType::Connectivity],
            AttributeType::TextureCoordinate => seq![
                AttributeType::Position,
                AttributeType::Connectivity,
            ],
            _ => Seq::empty(),
        }
    }

    /// The minimum set of roles the parents of an attribute with this role
    /// must provide.
    pub fn get_minimum_dependency(&self) -> (r: Vec<AttributeType>)
        ensures
            r@ == self.spec_minimum_dependency(),
    {
        let mut r: Vec<AttributeType> = Vec::new();
        match self {
            AttributeType::Normal => {
                r.push(AttributeType::Connectivity);
                proof {
                    assert(r@ =~= self.spec_minimum_dependency());
                }
            },
            AttributeType::TextureCoordinate => {
                r.push(AttributeType::Position);
                r.push(AttributeType::Connectivity);
                proof {
                    assert(r@ =~= self.spec_minimum_dependency());
                }
            },
            _ => {
                proof {
                    assert(r@ =~= self.spec_minimum_dependency());
                }
            },
        }
        r
    }

    /// Returns the unique on-wire identifier of the role.
    pub fn get_id(&self) -> (r: usize)
        ensures
            r as int == self.spec_id(),
            r <= 9,
    {
        match self {
            AttributeType::Position => 0,
            AttributeType::Normal => 1,
            AttributeType::Color => 2,
            AttributeType::TextureCoordinate => 3,
            AttributeType::Tangent => 4,
            AttributeType::Material => 5,
            AttributeType::Joint => 6,
            AttributeType::Weight => 7,
            AttributeType::Connectivity => 8,
            AttributeType::Custom => 9,
        }
    }

    /// Returns the role denoted by the given on-wire identifier; unknown
    /// identifiers are a format error.
    pub fn from_id(id: usize) -> (r: Result<Self, ()>)
        ensures
            Self::spec_from_id(id as int) matches Some(v) ==> r == Ok::<Self, ()>(v),
            Self::spec_from_id(id as int) is None ==> r == Err::<Self, ()>(()),
    {
        match id {
            0 => Ok(AttributeType::Position),
            1 => Ok(AttributeType::Normal),
            2 => Ok(AttributeType::Color),
            3 => Ok(AttributeType::TextureCoordinate),
            4 => Ok(AttributeType::Tangent),
            5 => Ok(AttributeType::Material),
            6 => Ok(AttributeType::Joint),
            7 => Ok(AttributeType::Weight),
            8 => Ok(AttributeType::Connectivity),
            9 => Ok(AttributeType::Custom),
            _ => Err(()),
        }
    }
}

/// The identifier map of the roles is a bijection: decoding the identifier
/// of any role yields that role, and every identifier in `[0, 9]` decodes to
/// a role that carries exactly that identifier.
pub proof fn lemma_attribute_type_id_bijection()
    ensures
        forall|v: AttributeType| AttributeType::spec_from_id(v.spec_id()) == Some(v),
        forall|id: int|
            0 <= id <= 9 ==> (#[trigger] AttributeType::spec_from_id(id)) is Some
                && AttributeType::spec_from_id(id)->Some_0.spec_id() == id,
        forall|id: int| !(0 <= id <= 9) ==> (#[trigger] AttributeType::spec_from_id(id)) is None,
{
    assert forall|v: AttributeType| AttributeType::spec_from_id(v.spec_id()) == Some(v) by {
        match v {
            AttributeType::Position => {},
            AttributeType::Normal => {},
            AttributeType::Color => {},
            AttributeType::TextureCoordinate => {},
            AttributeType::Tangent => {},
            AttributeType::Material => {},
            AttributeType::Joint => {},
            AttributeType::Weight => {},
            AttributeType::Connectivity => {},
            AttributeType::Custom => {},
        }
    }
}

/// The values a face sequence stores: each face becomes one value of three
/// vertex-index components.
pub open spec fn faces_to_values(faces: Seq<(usize, usize, usize)>) -> Seq<Seq<u64>> {
    Seq::new(
        faces.len(),
        |i: int| seq![faces[i].0 as u64, faces[i].1 as u64, faces[i].2 as u64],
    )
}

/// An attribute: a typed buffer with an identity, a semantic role, and the
/// identities of the attributes it depends on.
pub struct Attribute {
    id: AttributeId,
    buffer: AttributeBuffer,
    att_type: AttributeType,
    parents: Vec<AttributeId>,
}

impl Attribute {
    /// Well-formed: the buffer is well-formed, and a connectivity attribute
    /// holds triangle index triples.
    pub closed spec fn wf(&self) -> bool {
        &&& self.buffer.wf()
        &&& self.att_type == AttributeType::Connectivity ==> self.buffer.spec_num_components() == 3
            && self.buffer.spec_component_type() == ComponentDataType::U64
    }

    pub closed spec fn spec_id(&self) -> AttributeId {
        self.id
    }

    pub closed spec fn spec_att_type(&self) -> AttributeType {
        self.att_type
    }

    pub closed spec fn spec_parents(&self) -> Seq<AttributeId> {
        self.parents@
    }

    /// The logical sequence of values the attribute holds.
    pub closed spec fn values(&self) -> Seq<Seq<u64>> {
        self.buffer.values()
    }

    pub closed spec fn spec_len(&self) -> nat {
        self.buffer.spec_len()
    }

    pub closed spec fn spec_component_type(&self) -> ComponentDataType {
        self.buffer.spec_component_type()
    }

    pub closed spec fn spec_num_components(&self) -> nat {
        self.buffer.spec_num_components()
    }

    /// Every value of a well-formed attribute has exactly
    /// `num_components` components.
    pub proof fn lemma_values_shape(&self)
        requires
            self.wf(),
        ensures
            self.values().len() == self.spec_len(),
            forall|i: int|
                0 <= i < self.spec_len() ==> (#[trigger] self.values()[i]).len()
                    == self.spec_num_components(),
    {
        self.buffer.lemma_values_shape();
    }

    /// A well-formed connectivity attribute holds triangle index triples.
    pub proof fn lemma_connectivity_shape(&self)
        requires
            self.wf(),
            self.spec_att_type() == AttributeType::Connectivity,
        ensures
            self.spec_num_components() == 3,
            self.spec_component_type() == ComponentDataType::U64,
    {
    }

    /// Builds an attribute from a typed value sequence.
    pub fn from(
        id: AttributeId,
        data: Vec<Vec<u64>>,
        component_type: ComponentDataType,
        num_components: usize,
        att_type: AttributeType,
        parents: Vec<AttributeId>,
    ) -> (r: Self)
        requires
            num_components >= 1,
            forall|i: int| 0 <= i < data@.len() ==> (#[trigger] data@[i])@.len() == num_components,
            forall|i: int, j: int|
                0 <= i < data@.len() && 0 <= j < num_components ==> ((#[trigger] data@[i]@[j]) as nat)
                    < pow2(8 * component_type.spec_size()),
            data@.len() * num_components * component_type.spec_size() <= usize::MAX,
            att_type == AttributeType::Connectivity ==> num_components == 3 && component_type
                == ComponentDataType::U64,
        ensures
            r.wf(),
            r.spec_id() == id,
            r.spec_att_type() == att_type,
            r.spec_parents() == parents@,
            r.values() == views_of(data@),
            r.spec_len() == data@.len(),
            r.spec_component_type() == component_type,
            r.spec_num_components() == num_components,
    {
        let buffer = AttributeBuffer::from(data, component_type, num_components);
        Attribute { id, buffer, att_type, parents }
    }

    /// Builds a connectivity attribute from a sequence of triangle faces.
    pub fn from_faces(id: AttributeId, data: Vec<(usize, usize, usize)>, parents: Vec<AttributeId>)
        -> (r: Self)
        requires
            data@.len() * 24 <= usize::MAX,
        ensures
            r.wf(),
            r.spec_id() == id,
            r.spec_att_type() == AttributeType::Connectivity,
            r.spec_parents() == parents@,
            r.values() == faces_to_values(data@),
            r.spec_len() == data@.len(),
            r.spec_component_type() == ComponentDataType::U64,
            r.spec_num_components() == 3,
    {
        let n = data.len();
        let mut vals: Vec<Vec<u64>> = Vec::new();
        let mut i: usize = 0;
        while i < n
            invariant
                i <= n,
                n == data@.len(),
                vals@.len() == i,
                forall|i2: int|
                    0 <= i2 < i ==> (#[trigger] vals@[i2])@ == faces_to_values(data@)[i2],
            decreases n - i,
        {
            let f = data[i];
            let mut v: Vec<u64> = Vec::new();
            v.push(f.0 as u64);
            v.push(f.1 as u64);
            v.push(f.2 as u64);
            proof {
                assert(v@ =~= faces_to_values(data@)[i as int]);
            }
            vals.push(v);
            i = i + 1;
        }
        proof {
            vstd::arithmetic::power2::lemma2_to64();
            vstd::arithmetic::power2::lemma2_to64_rest();
            assert(forall|i2: int, j2: int|
                0 <= i2 < vals@.len() && 0 <= j2 < 3 ==> ((#[trigger] vals@[i2]@[j2]) as nat) < pow2(
                    64,
                ));
            assert(vals@.len() * 3 * ComponentDataType::U64.spec_size() == data@.len() * 24);
        }
        let buffer = AttributeBuffer::from(vals, ComponentDataType::U64, 3);
        let r = Attribute { id, buffer, att_type: AttributeType::Connectivity, parents };
        proof {
            assert(r.values() =~~= faces_to_values(data@));
        }
        r
    }

    /// The value at index `idx`.
    pub fn get(&self, idx: usize) -> (r: Vec<u64>)
        requires
            self.wf(),
            idx < self.spec_len(),
        ensures
            r@ == self.values()[idx as int],
    {
        self.buffer.get(idx)
    }

    pub fn get_component_type(&self) -> (r: ComponentDataType)
        ensures
            r == self.spec_component_type(),
    {
        self.buffer.get_component_type()
    }

    #[inline]
    pub fn get_id(&self) -> (r: AttributeId)
        ensures
            r == self.spec_id(),
    {
        self.id
    }

    #[inline]
    pub fn get_num_components(&self) -> (r: usize)
        ensures
            r as nat == self.spec_num_components(),
    {
        self.buffer.get_num_components()
    }

    #[inline]
    pub fn get_attribute_type(&self) -> (r: AttributeType)
        ensures
            r == self.spec_att_type(),
    {
        self.att_type
    }

    #[inline]
    pub fn get_parents(&self) -> (r: &Vec<AttributeId>)
        ensures
            r@ == self.spec_parents(),
    {
        &self.parents
    }

    /// The number of values of the attribute.
    #[inline]
    pub fn len(&self) -> (r: usize)
        ensures
            r as nat == self.spec_len(),
    {
        self.buffer.len()
    }

    /// All values of the attribute in order: element `i` equals `get(i)`.
    pub fn as_slice(&self) -> (r: Vec<Vec<u64>>)
        requires
            self.wf(),
        ensures
            views_of(r@) == self.values(),
            r@.len() == self.spec_len(),
    {
        self.buffer.as_slice()
    }
}

/// An attribute whose buffer is still being filled cell by cell by a
/// decoder.
pub struct MaybeInitAttribute {
    id: AttributeId,
    buffer: MaybeInitAttributeBuffer,
    att_type: AttributeType,
    parents: Vec<AttributeId>,
}

impl MaybeInitAttribute {
    pub closed spec fn wf(&self) -> bool {
        &&& self.buffer.wf()
        &&& self.att_type == AttributeType::Connectivity ==> self.buffer.spec_num_components() == 3
            && self.buffer.spec_component_type() == ComponentDataType::U64
    }

    pub closed spec fn spec_id(&self) -> AttributeId {
        self.id
    }

    pub closed spec fn spec_att_type(&self) -> AttributeType {
        self.att_type
    }

    pub closed spec fn spec_parents(&self) -> Seq<AttributeId> {
        self.parents@
    }

    pub closed spec fn values(&self) -> Seq<Seq<u64>> {
        self.buffer.values()
    }

    pub closed spec fn written(&self) -> Seq<bool> {
        self.buffer.written()
    }

    pub closed spec fn spec_len(&self) -> nat {
        self.buffer.spec_len()
    }

    pub closed spec fn spec_component_type(&self) -> ComponentDataType {
        self.buffer.spec_component_type()
    }

    pub closed spec fn spec_num_components(&self) -> nat {
        self.buffer.spec_num_components()
    }

    /// Allocates an attribute of `len` values to be written cell by cell.
    #[inline]
    pub fn new(
        id: AttributeId,
        att_type: AttributeType,
        len: usize,
        component_type: ComponentDataType,
        num_components: usize,
        parents: Vec<AttributeId>,
    ) -> (r: Self)
        requires
            num_components >= 1,
            len * num_components * component_type.spec_size() <= usize::MAX,
            att_type == AttributeType::Connectivity ==> num_components == 3 && component_type
                == ComponentDataType::U64,
        ensures
            r.wf(),
            r.spec_id() == id,
            r.spec_att_type() == att_type,
            r.spec_parents() == parents@,
            r.spec_len() == len,
            r.spec_component_type() == component_type,
            r.spec_num_components() == num_components,
            forall|i: int| 0 <= i < len ==> !r.written()[i],
    {
        let buffer = MaybeInitAttributeBuffer::new(len, component_type, num_components);
        MaybeInitAttribute { id, buffer, att_type, parents }
    }

    /// Checked write of the value at index `idx`; see the buffer's `write`.
    #[inline]
    pub fn write(&mut self, idx: usize, value: &Vec<u64>) -> (r: Result<(), AttributeError>)
        requires
            old(self).wf(),
        ensures
            r == write_outcome(
                old(self).spec_num_components(),
                old(self).spec_component_type().spec_size(),
                old(self).spec_len(),
                idx as int,
                value@,
            ),
            r is Err ==> *final(self) == *old(self),
            r is Ok ==> final(self).wf() && final(self).spec_id() == old(self).spec_id()
                && final(self).spec_att_type() == old(self).spec_att_type()
                && final(self).spec_parents() == old(self).spec_parents() && final(self).spec_len()
                == old(self).spec_len() && final(self).spec_component_type() == old(
                self,
            ).spec_component_type() && final(self).spec_num_components() == old(
                self,
            ).spec_num_components() && final(self).values() == old(self).values().update(
                idx as int,
                value@,
            ) && final(self).written() == old(self).written().update(idx as int, true),
    {
        self.buffer.write(idx, value)
    }

    #[inline]
    pub fn get_component_type(&self) -> (r: ComponentDataType)
        ensures
            r == self.spec_component_type(),
    {
        self.buffer.get_component_type()
    }

    #[inline]
    pub fn get_num_components(&self) -> (r: usize)
        ensures
            r as nat == self.spec_num_components(),
    {
        self.buffer.get_num_components()
    }

    #[inline]
    pub fn len(&self) -> (r: usize)
        ensures
            r as nat == self.spec_len(),
    {
        self.buffer.len()
    }

    /// Promotes to an immutable attribute; fails if any cell was never
    /// written.
    pub fn into_initialized(self) -> (r: Result<Attribute, AttributeError>)
        requires
            self.wf(),
        ensures
            (exists|i: int| 0 <= i < self.spec_len() && !self.written()[i]) <==> r is Err,
            r is Err ==> r == Err::<Attribute, AttributeError>(AttributeError::UninitializedCell),
            r matches Ok(a) ==> a.wf() && a.spec_id() == self.spec_id() && a.spec_att_type()
                == self.spec_att_type() && a.spec_parents() == self.spec_parents() && a.spec_len()
                == self.spec_len() && a.spec_component_type() == self.spec_component_type()
                && a.spec_num_components() == self.spec_num_components() && a.values()
                == self.values(),
    {
        let MaybeInitAttribute { id, buffer, att_type, parents } = self;
        proof {
            assert(buffer.written() == self.written());
            assert(buffer.spec_len() == self.spec_len());
        }
        let res = buffer.into_initialized();
        proof {
            if exists|i: int| 0 <= i < self.spec_len() && !self.written()[i] {
                let i = choose|i: int| 0 <= i < self.spec_len() && !self.written()[i];
                assert(0 <= i < buffer.spec_len() && !buffer.written()[i]);
            }
            if exists|i: int| 0 <= i < buffer.spec_len() && !buffer.written()[i] {
                let i = choose|i: int| 0 <= i < buffer.spec_len() && !buffer.written()[i];
                assert(0 <= i < self.spec_len() && !self.written()[i]);
            }
        }
        match res {
            Ok(b) => Ok(Attribute { id, buffer: b, att_type, parents }),
            Err(e) => Err(e),
        }
    }
}

/// The first parent identity that does not refer to one of the `n` existing
/// attributes, if any.
pub open spec fn first_unknown_parent(parents: Seq<AttributeId>, n: nat) -> Option<AttributeId>
    decreases parents.len(),
{
    if parents.len() == 0 {
        None
    } else if parents[0].spec_value() >= n {
        Some(parents[0])
    } else {
        first_unknown_parent(parents.drop_first(), n)
    }
}

/// The first required role that does not appear among `have`, if any.
pub open spec fn first_missing_dependency(required: Seq<AttributeType>, have: Seq<AttributeType>)
    -> Option<AttributeType>
    decreases required.len(),
{
    if required.len() == 0 {
        None
    } else if !have.contains(required[0]) {
        Some(required[0])
    } else {
        first_missing_dependency(required.drop_first(), have)
    }
}

proof fn lemma_first_unknown_parent_some(parents: Seq<AttributeId>, n: nat, k: int)
    requires
        0 <= k < parents.len(),
        forall|i: int| 0 <= i < k ==> (#[trigger] parents[i]).spec_value() < n,
        parents[k].spec_value() >= n,
    ensures
        first_unknown_parent(parents, n) == Some(parents[k]),
    decreases k,
{
    if k > 0 {
        lemma_first_unknown_parent_some(parents.drop_first(), n, k - 1);
    }
}

proof fn lemma_first_unknown_parent_none(parents: Seq<AttributeId>, n: nat)
    requires
        forall|i: int| 0 <= i < parents.len() ==> (#[trigger] parents[i]).spec_value() < n,
    ensures
        first_unknown_parent(parents, n) is None,
    decreases parents.len(),
{
    if parents.len() > 0 {
        lemma_first_unknown_parent_none(parents.drop_first(), n);
    }
}

proof fn lemma_first_missing_dependency_some(
    required: Seq<AttributeType>,
    have: Seq<AttributeType>,
    k: int,
)
    requires
        0 <= k < required.len(),
        forall|i: int| 0 <= i < k ==> have.contains(#[trigger] required[i]),
        !have.contains(required[k]),
    ensures
        first_missing_dependency(required, have) == Some(required[k]),
    decreases k,
{
    if k > 0 {
        lemma_first_missing_dependency_some(required.drop_first(), have, k - 1);
    }
}

proof fn lemma_first_missing_dependency_none(required: Seq<AttributeType>, have: Seq<AttributeType>)
    requires
        forall|i: int| 0 <= i < required.len() ==> have.contains(#[trigger] required[i]),
    ensures
        first_missing_dependency(required, have) is None,
    decreases required.len(),
{
    if required.len() > 0 {
        lemma_first_missing_dependency_none(required.drop_first(), have);
    }
}

/// The collection that owns the attributes, mints their identities, and
/// enforces the dependency rules of the roles.
pub struct AttributeCollection {
    attributes: Vec<Attribute>,
}

impl AttributeCollection {
    /// Well-formed: each attribute carries its own index as identity, is
    /// well-formed, and refers only to attributes inserted before it.
    pub closed spec fn wf(&self) -> bool {
        forall|i: int|
            0 <= i < self.attributes@.len() ==> (#[trigger] self.attributes@[i]).wf()
                && self.attributes@[i].spec_id().spec_value() == i && (forall|k: int|
                0 <= k < self.attributes@[i].spec_parents().len()
                    ==> (#[trigger] self.attributes@[i].spec_parents()[k]).spec_value() < i)
    }

    pub closed spec fn spec_len(&self) -> nat {
        self.attributes@.len()
    }

    /// The attribute at index `i`.
    pub closed spec fn attribute_at(&self, i: int) -> Attribute {
        self.attributes@[i]
    }

    /// The roles of the attributes the given identities refer to.
    pub open spec fn roles_of(&self, parents: Seq<AttributeId>) -> Seq<AttributeType> {
        Seq::new(parents.len(), |k: int| self.attribute_at(parents[k].spec_value() as int).spec_att_type())
    }

    /// The outcome of inserting an attribute with the given role and
    /// parents: every parent must already exist, and the parents' roles
    /// must cover the role's minimum dependency.
    pub open spec fn insert_outcome(&self, att_type: AttributeType, parents: Seq<AttributeId>)
        -> Result<(), AttributeError> {
        match first_unknown_parent(parents, self.spec_len()) {
            Some(p) => Err(AttributeError::UnknownParent(p)),
            None => match first_missing_dependency(
                att_type.spec_minimum_dependency(),
                self.roles_of(parents),
            ) {
                Some(role) => Err(AttributeError::MissingDependency(role)),
                None => Ok(()),
            },
        }
    }

    pub fn new() -> (r: Self)
        ensures
            r.wf(),
            r.spec_len() == 0,
    {
        AttributeCollection { attributes: Vec::new() }
    }

    pub fn len(&self) -> (r: usize)
        ensures
            r as nat == self.spec_len(),
    {
        self.attributes.len()
    }

    /// The attribute a minted identity refers to.
    pub fn attribute(&self, id: AttributeId) -> (r: &Attribute)
        requires
            id.spec_value() < self.spec_len(),
        ensures
            *r == self.attribute_at(id.spec_value() as int),
    {
        &self.attributes[id.as_usize()]
    }

    /// Inserts an attribute built from a typed value sequence, minting the
    /// next identity for it; fails if a parent does not exist or the
    /// parents' roles miss a required dependency.
    #[verifier::loop_isolation(false)]
    pub fn insert(
        &mut self,
        data: Vec<Vec<u64>>,
        component_type: ComponentDataType,
        num_components: usize,
        att_type: AttributeType,
        parents: Vec<AttributeId>,
    ) -> (r: Result<AttributeId, AttributeError>)
        requires
            old(self).wf(),
            old(self).spec_len() + 1 <= usize::MAX,
            num_components >= 1,
            forall|i: int| 0 <= i < data@.len() ==> (#[trigger] data@[i])@.len() == num_components,
            forall|i: int, j: int|
                0 <= i < data@.len() && 0 <= j < num_components ==> ((#[trigger] data@[i]@[j]) as nat)
                    < pow2(8 * component_type.spec_size()),
            data@.len() * num_components * component_type.spec_size() <= usize::MAX,
            att_type == AttributeType::Connectivity ==> num_components == 3 && component_type
                == ComponentDataType::U64,
        ensures
            final(self).wf(),
            old(self).insert_outcome(att_type, parents@) matches Err(e) ==> r == Err::<
                AttributeId,
                AttributeError,
            >(e) && *final(self) == *old(self),
            old(self).insert_outcome(att_type, parents@) is Ok ==> ({
                &&& r matches Ok(aid) && aid.spec_value() == old(self).spec_len()
                &&& final(self).spec_len() == old(self).spec_len() + 1
                &&& forall|i: int|
                    0 <= i < old(self).spec_len() ==> final(self).attribute_at(i) == old(
                        self,
                    ).attribute_at(i)
                &&& final(self).attribute_at(old(self).spec_len() as int).spec_att_type()
                    == att_type
                &&& final(self).attribute_at(old(self).spec_len() as int).spec_parents()
                    == parents@
                &&& final(self).attribute_at(old(self).spec_len() as int).values() == views_of(
                    data@,
                )
                &&& final(self).attribute_at(old(self).spec_len() as int).spec_id().spec_value()
                    == old(self).spec_len()
            }),
    {
        let n = self.attributes.len();
        let mut k: usize = 0;
        let np = parents.len();
        while k < np
            invariant
                k <= np,
                np == parents@.len(),
                n as nat == self.spec_len(),
                forall|i: int| 0 <= i < k ==> (#[trigger] parents@[i]).spec_value() < n,
            decreases np - k,
        {
            if parents[k].as_usize() >= n {
                proof {
                    lemma_first_unknown_parent_some(parents@, n as nat, k as int);
                }
                return Err(AttributeError::UnknownParent(parents[k]));
            }
            k = k + 1;
        }
        proof {
            lemma_first_unknown_parent_none(parents@, n as nat);
        }
        let deps = att_type.get_minimum_dependency();
        let nd = deps.len();
        let mut d: usize = 0;
        while d < nd
            invariant
                d <= nd,
                self.wf(),
                nd == deps@.len(),
                deps@ == att_type.spec_minimum_dependency(),
                np == parents@.len(),
                n as nat == self.spec_len(),
                forall|i: int| 0 <= i < np ==> (#[trigger] parents@[i]).spec_value() < n,
                forall|i: int| 0 <= i < d ==> self.roles_of(parents@).contains(#[trigger] deps@[i]),
            decreases nd - d,
        {
            let required = deps[d];
            let mut m: usize = 0;
            let mut found = false;
            while m < np
                invariant
                    m <= np,
                    self.wf(),
                    np == parents@.len(),
                    n as nat == self.spec_len(),
                    required == deps@[d as int],
                    forall|i: int| 0 <= i < np ==> (#[trigger] parents@[i]).spec_value() < n,
                    found ==> self.roles_of(parents@).contains(required),
                    !found ==> forall|i: int|
                        0 <= i < m ==> self.roles_of(parents@)[i] != required,
                decreases np - m,
            {
                let p = parents[m];
                let role = self.attributes[p.as_usize()].get_attribute_type();
                if role == required {
                    found = true;
                    proof {
                        assert(self.roles_of(parents@)[m as int] == required);
                    }
                    m = np;
                } else {
                    m = m + 1;
                }
            }
            if !found {
                proof {
                    assert(forall|i: int|
                        0 <= i < self.roles_of(parents@).len() ==> self.roles_of(parents@)[i]
                            != required);
                    assert(!self.roles_of(parents@).contains(required));
                    lemma_first_missing_dependency_some(
                        deps@,
                        self.roles_of(parents@),
                        d as int,
                    );
                }
                return Err(AttributeError::MissingDependency(required));
            }
            d = d + 1;
        }
        proof {
            lemma_first_missing_dependency_none(deps@, self.roles_of(parents@));
        }
        let aid = AttributeId::new(n);
        let att = Attribute::from(aid, data, component_type, num_components, att_type, parents);
        self.attributes.push(att);
        proof {
            assert forall|i: int| 0 <= i < self.attributes@.len() implies (
            #[trigger] self.attributes@[i]).wf() && self.attributes@[i].spec_id().spec_value() == i
                && (forall|k2: int|
                0 <= k2 < self.attributes@[i].spec_parents().len()
                    ==> (#[trigger] self.attributes@[i].spec_parents()[k2]).spec_value() < i) by {
                if i < n {
                    assert(self.attributes@[i] == old(self).attributes@[i]);
                }
            }
        }
        Ok(aid)
    }

    /// A total order over the attributes in which every attribute follows
    /// all of its parents: the insertion order itself, since parents must
    /// exist before their children.
    pub fn topological_order(&self) -> (r: Vec<AttributeId>)
        requires
            self.wf(),
        ensures
            r@.len() == self.spec_len(),
            forall|i: int| 0 <= i < r@.len() ==> (#[trigger] r@[i]).spec_value() == i,
            forall|i: int, k: int|
                0 <= i < r@.len() && 0 <= k < self.attribute_at(i).spec_parents().len() ==> (
                #[trigger] self.attribute_at(i).spec_parents()[k]).spec_value() < i,
    {
        let n = self.attributes.len();
        let mut r: Vec<AttributeId> = Vec::new();
        let mut i: usize = 0;
        while i < n
            invariant
                i <= n,
                n as nat == self.spec_len(),
                r@.len() == i,
                forall|i2: int| 0 <= i2 < i ==> (#[trigger] r@[i2]).spec_value() == i2,
            decreases n - i,
        {
            r.push(AttributeId::new(i));
            i = i + 1;
        }
        r
    }
}

} // verus!
