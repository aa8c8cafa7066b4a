//! The object section of a World00p: every object with its type and property bag.
//!
//! Floating-point property values are kept as their bit patterns.
use vstd::prelude::*;

use super::bytes::{cstr, get_u16, get_u32, le_u16, le_u32, read_cstring, slice_subrange};
use super::error::AssetError;
use super::world00p::{cur_bytes, cur_u32, cursor_bytes, cursor_u32, WorldHeader, FEAR_WORLD_VERSION, ONE_BITS};
use super::world_models::{v3_at, Vec3Bits};
use crate::text::{eq_ignore_ascii_case, lemma_lex_total, lemma_lex_trans, lex_le, lex_le_str, lower_seq, str_eq, utf8_string};

verus! {

pub const PROP_STRING: u32 = 0;

pub const PROP_VECTOR: u32 = 1;

pub const PROP_COLOUR: u32 = 2;

pub const PROP_FLOAT: u32 = 3;

pub const PROP_INT: u32 = 4;

pub const PROP_FLAGS: u32 = 5;

pub const PROP_QUAT: u32 = 6;

pub const PROP_COMMAND: u32 = 7;

pub const PROP_TEXT: u32 = 8;

/// The bit patterns of a quaternion's four `f32` components, x y z w.
#[derive(Debug, Clone, Copy, PartialEq, Eq, Structural)]
pub struct QuatBits {
    pub x: u32,
    pub y: u32,
    pub z: u32,
    pub w: u32,
}

/// A property value as stored: strings from the bag's heap, points and quaternions by
/// their bits, a float by its bits, an integer (flags too) as signed.
#[derive(Debug)]
pub enum PropValue {
    String(String),
    Vector(Vec3Bits),
    Colour(Vec3Bits),
    Float(u32),
    Int(i32),
    Quat(QuatBits),
}

pub ghost enum PropView {
    String(Seq<char>),
    Vector(Vec3Bits),
    Colour(Vec3Bits),
    Float(u32),
    Int(i32),
    Quat(QuatBits),
}

impl View for PropValue {
    type V = PropView;

    open spec fn view(&self) -> PropView {
        match self {
            PropValue::String(s) => PropView::String(s@),
            PropValue::Vector(v) => PropView::Vector(*v),
            PropValue::Colour(v) => PropView::Colour(*v),
            PropValue::Float(v) => PropView::Float(*v),
            PropValue::Int(v) => PropView::Int(*v),
            PropValue::Quat(q) => PropView::Quat(*q),
        }
    }
}

/// One property of a bag, as in the file.
#[derive(Debug)]
pub struct RawProp {
    pub name: String,
    pub value: PropValue,
}

pub ghost struct PropEntry {
    pub name: Seq<char>,
    pub value: PropView,
}

impl View for RawProp {
    type V = PropEntry;

    open spec fn view(&self) -> PropEntry {
        PropEntry { name: self.name@, value: self.value@ }
    }
}

pub open spec fn prop_views(v: Seq<RawProp>) -> Seq<PropEntry> {
    v.map_values(|p: RawProp| p@)
}

/// An object of the world, whatever its type.
#[derive(Debug)]
pub struct RawWorldObject {
    pub object_type: String,
    pub properties: Vec<RawProp>,
}

pub ghost struct ObjectView {
    pub object_type: Seq<char>,
    pub properties: Seq<PropEntry>,
}

impl View for RawWorldObject {
    type V = ObjectView;

    open spec fn view(&self) -> ObjectView {
        ObjectView { object_type: self.object_type@, properties: prop_views(self.properties@) }
    }
}

pub open spec fn object_views(v: Seq<RawWorldObject>) -> Seq<ObjectView> {
    v.map_values(|o: RawWorldObject| o@)
}

/// The whole object section.
#[derive(Debug)]
pub struct RawWorldObjects {
    pub objects: Vec<RawWorldObject>,
}

/// A `u16`-prefixed UTF-8 string at `p`.
pub open spec fn obj_string_at(b: Seq<u8>, p: int) -> Result<(Seq<char>, int), AssetError> {
    if !(0 <= p && p + 2 <= b.len()) {
        Err(AssetError::UnexpectedEof)
    } else {
        let n = le_u16(b, p) as int;
        if p + 2 + n > b.len() {
            Err(AssetError::UnexpectedEof)
        } else if vstd::utf8::valid_utf8(b.subrange(p + 2, p + 2 + n)) {
            Ok((vstd::utf8::decode_utf8(b.subrange(p + 2, p + 2 + n)), p + 2 + n))
        } else {
            Err(AssetError::Utf8)
        }
    }
}

/// The NUL-terminated UTF-8 string at `off` of a bag's heap; empty when there is none.
pub open spec fn heap_str(heap: Seq<u8>, off: int) -> Seq<char> {
    if off >= heap.len() || !vstd::utf8::valid_utf8(cstr(heap.skip(off))) {
        Seq::empty()
    } else {
        vstd::utf8::decode_utf8(cstr(heap.skip(off)))
    }
}

/// The point at `off` of a heap, or zero when it does not fit.
pub open spec fn heap_v3(heap: Seq<u8>, off: int) -> Vec3Bits {
    if off + 12 <= heap.len() {
        v3_at(heap, off)
    } else {
        Vec3Bits { x: 0, y: 0, z: 0 }
    }
}

/// The quaternion at `off` of a heap, or the identity when it does not fit.
pub open spec fn heap_quat(heap: Seq<u8>, off: int) -> QuatBits {
    if off + 16 <= heap.len() {
        QuatBits {
            x: le_u32(heap, off),
            y: le_u32(heap, off + 4),
            z: le_u32(heap, off + 8),
            w: le_u32(heap, off + 12),
        }
    } else {
        QuatBits { x: 0, y: 0, z: 0, w: ONE_BITS }
    }
}

/// The signed reading of a word.
pub open spec fn as_signed(w: u32) -> i32 {
    if w >= 0x8000_0000 {
        (w as int - 0x1_0000_0000) as i32
    } else {
        w as i32
    }
}

/// A property's value from its kind and data word; `None` for kinds that are skipped.
pub open spec fn prop_value(heap: Seq<u8>, kind: u32, data: u32) -> Option<PropView> {
    if kind == PROP_STRING || kind == PROP_COMMAND || kind == PROP_TEXT {
        Some(PropView::String(heap_str(heap, data as int)))
    } else if kind == PROP_VECTOR {
        Some(PropView::Vector(heap_v3(heap, data as int)))
    } else if kind == PROP_COLOUR {
        Some(PropView::Colour(heap_v3(heap, data as int)))
    } else if kind == PROP_FLOAT {
        Some(PropView::Float(data))
    } else if kind == PROP_INT || kind == PROP_FLAGS {
        Some(PropView::Int(as_signed(data)))
    } else if kind == PROP_QUAT {
        Some(PropView::Quat(heap_quat(heap, data as int)))
    } else {
        None
    }
}

/// The first `n` property records from `p` on (name offset, kind, data word).
pub open spec fn props_at(b: Seq<u8>, p: int, heap: Seq<u8>, n: nat) -> Result<(Seq<PropEntry>, int), AssetError>
    decreases n,
{
    if n == 0 {
        Ok((Seq::empty(), p))
    } else {
        match props_at(b, p, heap, (n - 1) as nat) {
            Err(e) => Err(e),
            Ok((ps, q)) => if !(0 <= q && q + 12 <= b.len()) {
                Err(AssetError::UnexpectedEof)
            } else {
                match prop_value(heap, le_u32(b, q + 4), le_u32(b, q + 8)) {
                    None => Ok((ps, q + 12)),
                    Some(v) => Ok(
                        (ps.push(PropEntry { name: heap_str(heap, le_u32(b, q) as int), value: v }), q + 12),
                    ),
                }
            },
        }
    }
}

/// A property bag at `p`: count, heap size, heap, then the records.
pub open spec fn bag_at(b: Seq<u8>, p: int) -> Result<(Seq<PropEntry>, int), AssetError> {
    match cur_u32(b, p) {
        Err(e) => Err(e),
        Ok((count, p1)) => match cur_u32(b, p1) {
            Err(e) => Err(e),
            Ok((size, p2)) => match cur_bytes(b, p2, size as int) {
                Err(e) => Err(e),
                Ok((heap, p3)) => props_at(b, p3, heap, count as nat),
            },
        },
    }
}

/// The first `n` objects from `p` on: a type name then a property bag each.
pub open spec fn objects_at(b: Seq<u8>, p: int, n: nat) -> Result<(Seq<ObjectView>, int), AssetError>
    decreases n,
{
    if n == 0 {
        Ok((Seq::empty(), p))
    } else {
        match objects_at(b, p, (n - 1) as nat) {
            Err(e) => Err(e),
            Ok((os, q)) => match obj_string_at(b, q) {
                Err(e) => Err(e),
                Ok((t, q2)) => match bag_at(b, q2) {
                    Err(e) => Err(e),
                    Ok((props, q3)) => Ok(
                        (os.push(ObjectView { object_type: t, properties: props }), q3),
                    ),
                },
            },
        }
    }
}

/// The object section of a world: an object count at the header's object offset, then
/// the objects.
pub open spec fn raw_objects(b: Seq<u8>) -> Result<Seq<ObjectView>, AssetError> {
    if b.len() < 56 {
        Err(AssetError::Truncated("World00p header"))
    } else if le_u32(b, 0) != FEAR_WORLD_VERSION {
        Err(AssetError::WorldVersion(le_u32(b, 0)))
    } else {
        let off = le_u32(b, 12) as int;
        if off >= b.len() {
            Err(AssetError::Truncated("object section"))
        } else {
            match cur_u32(b, off) {
                Err(e) => Err(e),
                Ok((count, p)) => match objects_at(b, p, count as nat) {
                    Err(e) => Err(e),
                    Ok((os, _)) => Ok(os),
                },
            }
        }
    }
}

pub(crate) fn read_obj_string(b: &[u8], pos: &mut u64) -> (r: Result<String, AssetError>)
    ensures
        match r {
            Ok(s) => obj_string_at(b@, *old(pos) as int) == Ok::<(Seq<char>, int), AssetError>(
                (s@, *final(pos) as int),
            ),
            Err(e) => obj_string_at(b@, *old(pos) as int) == Err::<(Seq<char>, int), AssetError>(e),
        },
{
    let len = b.len() as u64;
    if *pos > len || len - *pos < 2 {
        *pos = len;
        return Err(AssetError::UnexpectedEof);
    }
    let p = *pos as usize;
    let n = get_u16(b, p) as u64;
    if len - *pos - 2 < n {
        *pos = len;
        return Err(AssetError::UnexpectedEof);
    }
    let bytes = slice_subrange(b, p + 2, p + 2 + n as usize);
    *pos = *pos + 2 + n;
    match utf8_string(bytes) {
        Some(s) => Ok(s),
        None => Err(AssetError::Utf8),
    }
}

fn heap_string(heap: &[u8], off: u32) -> (r: String)
    ensures
        r@ == heap_str(heap@, off as int),
{
    if off as usize >= heap.len() {
        return String::new();
    }
    match read_cstring(heap, off as usize) {
        Ok(s) => s.to_owned(),
        Err(_) => String::new(),
    }
}

fn heap_point(heap: &[u8], off: u32) -> (r: Vec3Bits)
    ensures
        r == heap_v3(heap@, off as int),
{
    let o = off as usize;
    if o <= heap.len() && heap.len() - o >= 12 {
        Vec3Bits { x: get_u32(heap, o), y: get_u32(heap, o + 4), z: get_u32(heap, o + 8) }
    } else {
        Vec3Bits { x: 0, y: 0, z: 0 }
    }
}

fn heap_rotation(heap: &[u8], off: u32) -> (r: QuatBits)
    ensures
        r == heap_quat(heap@, off as int),
{
    let o = off as usize;
    if o <= heap.len() && heap.len() - o >= 16 {
        QuatBits {
            x: get_u32(heap, o),
            y: get_u32(heap, o + 4),
            z: get_u32(heap, o + 8),
            w: get_u32(heap, o + 12),
        }
    } else {
        QuatBits { x: 0, y: 0, z: 0, w: ONE_BITS }
    }
}

fn signed(w: u32) -> (r: i32)
    ensures
        r == as_signed(w),
{
    if w >= 0x8000_0000 {
        (w as i64 - 0x1_0000_0000) as i32
    } else {
        w as i32
    }
}

fn decode_value(heap: &[u8], kind: u32, data: u32) -> (r: Option<PropValue>)
    ensures
        match r {
            Some(v) => prop_value(heap@, kind, data) == Some(v@),
            None => prop_value(heap@, kind, data) is None,
        },
{
    if kind == PROP_STRING || kind == PROP_COMMAND || kind == PROP_TEXT {
        Some(PropValue::String(heap_string(heap, data)))
    } else if kind == PROP_VECTOR {
        Some(PropValue::Vector(heap_point(heap, data)))
    } else if kind == PROP_COLOUR {
        Some(PropValue::Colour(heap_point(heap, data)))
    } else if kind == PROP_FLOAT {
        Some(PropValue::Float(data))
    } else if kind == PROP_INT || kind == PROP_FLAGS {
        Some(PropValue::Int(signed(data)))
    } else if kind == PROP_QUAT {
        Some(PropValue::Quat(heap_rotation(heap, data)))
    } else {
        None
    }
}

proof fn lemma_props_err(b: Seq<u8>, p: int, heap: Seq<u8>, k: nat, n: nat)
    requires
        k <= n,
        props_at(b, p, heap, k) is Err,
    ensures
        props_at(b, p, heap, n) == props_at(b, p, heap, k),
    decreases n - k,
{
    if n > k {
        lemma_props_err(b, p, heap, k, (n - 1) as nat);
    }
}

fn read_props(b: &[u8], pos: &mut u64, heap: &[u8], count: u32) -> (r: Result<Vec<RawProp>, AssetError>)
    ensures
        match r {
            Ok(v) => props_at(b@, *old(pos) as int, heap@, count as nat) == Ok::<
                (Seq<PropEntry>, int),
                AssetError,
            >((prop_views(v@), *final(pos) as int)),
            Err(e) => props_at(b@, *old(pos) as int, heap@, count as nat) == Err::<
                (Seq<PropEntry>, int),
                AssetError,
            >(e),
        },
{
    let ghost p0 = *pos as int;
    let bl = b.len();
    let len = bl as u64;
    let mut props: Vec<RawProp> = Vec::new();
    let mut i: u32 = 0;
    assert(prop_views(props@) =~= Seq::<PropEntry>::empty());
    while i < count
        invariant
            i <= count,
            p0 == *old(pos) as int,
            len == b@.len(),
            len == bl,
            props_at(b@, p0, heap@, i as nat) == Ok::<(Seq<PropEntry>, int), AssetError>(
                (prop_views(props@), *pos as int),
            ),
        decreases count - i,
    {
        if *pos > len || len - *pos < 12 {
            proof {
                lemma_props_err(b@, p0, heap@, (i + 1) as nat, count as nat);
            }
            *pos = len;
            return Err(AssetError::UnexpectedEof);
        }
        let q = *pos as usize;
        let name_off = get_u32(b, q);
        let kind = get_u32(b, q + 4);
        let data = get_u32(b, q + 8);
        *pos = *pos + 12;
        match decode_value(heap, kind, data) {
            Some(value) => {
                let name = heap_string(heap, name_off);
                let prop = RawProp { name, value };
                proof {
                    assert(prop_views(props@.push(prop)) =~= prop_views(props@).push(prop@));
                }
                props.push(prop);
            },
            None => {},
        }
        i += 1;
    }
    Ok(props)
}

/// Read a property bag at the cursor.
pub fn read_property_bag(b: &[u8], pos: &mut u64) -> (r: Result<Vec<RawProp>, AssetError>)
    ensures
        match r {
            Ok(v) => bag_at(b@, *old(pos) as int) == Ok::<(Seq<PropEntry>, int), AssetError>(
                (prop_views(v@), *final(pos) as int),
            ),
            Err(e) => bag_at(b@, *old(pos) as int) == Err::<(Seq<PropEntry>, int), AssetError>(e),
        },
{
    let count = match cursor_u32(b, pos) {
        Ok(v) => v,
        Err(e) => {
            return Err(e);
        },
    };
    let size = match cursor_u32(b, pos) {
        Ok(v) => v,
        Err(e) => {
            return Err(e);
        },
    };
    let heap = match cursor_bytes(b, pos, size as u64) {
        Ok(v) => v,
        Err(e) => {
            return Err(e);
        },
    };
    read_props(b, pos, heap.as_slice(), count)
}

proof fn lemma_objects_err(b: Seq<u8>, p: int, k: nat, n: nat)
    requires
        k <= n,
        objects_at(b, p, k) is Err,
    ensures
        objects_at(b, p, n) == objects_at(b, p, k),
    decreases n - k,
{
    if n > k {
        lemma_objects_err(b, p, k, (n - 1) as nat);
    }
}

fn read_objects(b: &[u8], pos: &mut u64, count: u32) -> (r: Result<Vec<RawWorldObject>, AssetError>)
    ensures
        match r {
            Ok(v) => objects_at(b@, *old(pos) as int, count as nat) matches Ok((os, _)) && os
                == object_views(v@),
            Err(e) => objects_at(b@, *old(pos) as int, count as nat) == Err::<
                (Seq<ObjectView>, int),
                AssetError,
            >(e),
        },
{
    let ghost p0 = *pos as int;
    let mut objects: Vec<RawWorldObject> = Vec::new();
    let mut i: u32 = 0;
    assert(object_views(objects@) =~= Seq::<ObjectView>::empty());
    while i < count
        invariant
            i <= count,
            p0 == *old(pos) as int,
            objects_at(b@, p0, i as nat) == Ok::<(Seq<ObjectView>, int), AssetError>(
                (object_views(objects@), *pos as int),
            ),
        decreases count - i,
    {
        let object_type = match read_obj_string(b, pos) {
            Ok(s) => s,
            Err(e) => {
                proof {
                    lemma_objects_err(b@, p0, (i + 1) as nat, count as nat);
                }
                return Err(e);
            },
        };
        let properties = match read_property_bag(b, pos) {
            Ok(v) => v,
            Err(e) => {
                proof {
                    lemma_objects_err(b@, p0, (i + 1) as nat, count as nat);
                }
                return Err(e);
            },
        };
        let o = RawWorldObject { object_type, properties };
        proof {
            assert(object_views(objects@.push(o)) =~= object_views(objects@).push(o@));
        }
        objects.push(o);
        i += 1;
    }
    Ok(objects)
}

/// The first property of `props` named `name` (without ASCII case) is at `k`.
pub open spec fn first_prop(props: Seq<PropEntry>, name: Seq<char>, k: int) -> bool {
    &&& 0 <= k < props.len()
    &&& lower_seq(props[k].name) == lower_seq(name)
    &&& forall|j: int| 0 <= j < k ==> lower_seq(#[trigger] props[j].name) != lower_seq(name)
}

/// How many of `objs` have exactly the type `t`.
pub open spec fn type_count(objs: Seq<ObjectView>, t: Seq<char>) -> nat
    decreases objs.len(),
{
    if objs.len() == 0 {
        0
    } else {
        type_count(objs.drop_last(), t) + if objs.last().object_type == t {
            1nat
        } else {
            0nat
        }
    }
}

impl RawWorldObject {
    /// The value of the first property named `name`, compared without ASCII case.
    pub fn prop(&self, name: &str) -> (r: Option<&PropValue>)
        ensures
            match r {
                Some(v) => exists|k: int|
                    first_prop(self@.properties, name@, k) && v@ == self@.properties[k].value,
                None => forall|k: int|
                    0 <= k < self@.properties.len() ==> lower_seq(
                        #[trigger] self@.properties[k].name,
                    ) != lower_seq(name@),
            },
    {
        let ghost ps = self@.properties;
        let mut k: usize = 0;
        while k < self.properties.len()
            invariant
                k <= self.properties@.len(),
                ps == prop_views(self.properties@),
                forall|j: int| 0 <= j < k ==> lower_seq(#[trigger] ps[j].name) != lower_seq(name@),
            decreases self.properties@.len() - k,
        {
            assert(ps[k as int] == self.properties@[k as int]@);
            if eq_ignore_ascii_case(self.properties[k].name.as_str(), name) {
                assert(first_prop(ps, name@, k as int));
                return Some(&self.properties[k].value);
            }
            k += 1;
        }
        None
    }
}

impl RawWorldObjects {
    pub closed spec fn objects_view(&self) -> Seq<ObjectView> {
        object_views(self.objects@)
    }

    /// Every object of the world's object section, with all its properties.
    pub fn parse(bytes: &[u8]) -> (r: Result<Self, AssetError>)
        ensures
            match r {
                Ok(o) => raw_objects(bytes@) == Ok::<Seq<ObjectView>, AssetError>(o.objects_view()),
                Err(e) => raw_objects(bytes@) == Err::<Seq<ObjectView>, AssetError>(e),
            },
    {
        let header = match WorldHeader::parse(bytes) {
            Ok(h) => h,
            Err(e) => {
                return Err(e);
            },
        };
        let off = header.object_section_offset as u64;
        if off >= bytes.len() as u64 {
            return Err(AssetError::Truncated("object section"));
        }
        let mut pos = off;
        let count = match cursor_u32(bytes, &mut pos) {
            Ok(v) => v,
            Err(e) => {
                return Err(e);
            },
        };
        match read_objects(bytes, &mut pos, count) {
            Ok(objects) => Ok(RawWorldObjects { objects }),
            Err(e) => Err(e),
        }
    }

    /// The objects whose type is `object_type`, compared without ASCII case, in file order.
    pub fn of_type(&self, object_type: &str) -> (r: Vec<&RawWorldObject>)
        ensures
            r@.map_values(|o: &RawWorldObject| o@) == self.objects_view().filter(
                |o: ObjectView| lower_seq(o.object_type) == lower_seq(object_type@),
            ),
    {
        let ghost os = self.objects_view();
        let mut out: Vec<&RawWorldObject> = Vec::new();
        let mut k: usize = 0;
        while k < self.objects.len()
            invariant
                k <= self.objects@.len(),
                os == object_views(self.objects@),
                out@.map_values(|o: &RawWorldObject| o@) == os.take(k as int).filter(
                    |o: ObjectView| lower_seq(o.object_type) == lower_seq(object_type@),
                ),
            decreases self.objects@.len() - k,
        {
            let o = &self.objects[k];
            let ghost before = out@;
            if eq_ignore_ascii_case(o.object_type.as_str(), object_type) {
                out.push(o);
            }
            proof {
                let t = os.take(k + 1);
                assert(t.drop_last() == os.take(k as int));
                assert(t.last() == o@);
                reveal_with_fuel(Seq::<ObjectView>::filter, 1);
                assert(out@.map_values(|o: &RawWorldObject| o@) =~= t.filter(
                    |o: ObjectView| lower_seq(o.object_type) == lower_seq(object_type@),
                ));
            }
            k += 1;
        }
        assert(os.take(os.len() as int) == os);
        out
    }

    /// Each object type that occurs, once, in character order, with how many objects have
    /// it.
    pub fn type_histogram(&self) -> (r: Vec<(String, usize)>)
        ensures
            forall|i: int|
                0 <= i < r@.len() ==> (#[trigger] r@[i]).1 == type_count(
                    self.objects_view(),
                    r@[i].0@,
                ),
            names_sorted(r@),
            forall|i: int| 0 <= i < r@.len() ==> (#[trigger] r@[i]).1 > 0,
            forall|k: int|
                0 <= k < self.objects_view().len() ==> exists|i: int|
                    0 <= i < r@.len() && r@[i].0@ == (#[trigger] self.objects_view()[k]).object_type,
    {
        let ghost os = self.objects_view();
        let mut out: Vec<(String, usize)> = Vec::new();
        let mut k: usize = 0;
        while k < self.objects.len()
            invariant
                k <= self.objects@.len(),
                os == object_views(self.objects@),
                forall|i: int|
                    0 <= i < out@.len() ==> (#[trigger] out@[i]).1 == type_count(
                        os.take(k as int),
                        out@[i].0@,
                    ),
                names_sorted(out@),
                forall|m: int|
                    0 <= m < k ==> exists|i: int|
                        0 <= i < out@.len() && out@[i].0@ == (#[trigger] os[m]).object_type,
                forall|i: int| 0 <= i < out@.len() ==> out@[i].1 <= k,
                forall|i: int| 0 <= i < out@.len() ==> (#[trigger] out@[i]).1 > 0,
            decreases self.objects@.len() - k,
        {
            let t = &self.objects[k].object_type;
            let ghost tk = os[k as int].object_type;
            assert(t@ == tk);
            let ghost t1 = os.take(k + 1);
            assert(t1.drop_last() == os.take(k as int));
            assert(t1.last().object_type == tk);
            let ghost old_out = out@;
            match find_type(&out, t) {
                Some(i) => {
                    let n = out[i].1;
                    out[i].1 = n + 1;
                    assert forall|j: int| 0 <= j < out@.len() implies (#[trigger] out@[j]).1
                        == type_count(t1, out@[j].0@) by {
                        if j != i {
                            assert(out@[j] == old_out[j]);
                        }
                    }
                    assert forall|m: int| 0 <= m < k + 1 implies exists|i2: int|
                        0 <= i2 < out@.len() && out@[i2].0@ == (#[trigger] os[m]).object_type by {
                        if m < k {
                            let i2 = choose|i2: int| 0 <= i2 < old_out.len() && old_out[i2].0@ == os[m].object_type;
                            assert(out@[i2].0@ == old_out[i2].0@);
                        } else {
                            assert(out@[i as int].0@ == os[m].object_type);
                        }
                    }
                    assert forall|a: int| 0 <= a < out@.len() implies (#[trigger] out@[a]).0@
                        == old_out[a].0@ by {
                        if a != i {
                            assert(out@[a] == old_out[a]);
                        }
                    }
                },
                None => {
                    proof {
                        assert forall|m: int| 0 <= m < os.take(k as int).len() implies (#[trigger] os.take(
                            k as int,
                        )[m]).object_type != tk by {
                            let i2 = choose|i2: int| 0 <= i2 < old_out.len() && old_out[i2].0@ == os[m].object_type;
                            assert(old_out[i2].0@ != tk);
                        }
                        lemma_type_count_absent(os.take(k as int), tk);
                    }
                    let j = insert_type(&mut out, t);
                    let ghost w = out@;
                    assert(w[j as int].0@ == tk);
                    assert(w[j as int].1 == 1);
                    assert forall|m: int| 0 <= m < w.len() implies (#[trigger] w[m]).1 == type_count(
                        t1,
                        w[m].0@,
                    ) by {
                        if m < j {
                            assert(w[m] == old_out[m]);
                        } else if m > j {
                            assert(w[m] == old_out[m - 1]);
                        }
                    }
                    assert forall|m: int| 0 <= m < k + 1 implies exists|i2: int|
                        0 <= i2 < w.len() && w[i2].0@ == (#[trigger] os[m]).object_type by {
                        if m < k {
                            let i2 = choose|i2: int| 0 <= i2 < old_out.len() && old_out[i2].0@ == os[m].object_type;
                            if i2 < j {
                                assert(w[i2] == old_out[i2]);
                            } else {
                                assert(w[i2 + 1] == old_out[i2]);
                            }
                        } else {
                            assert(w[j as int].0@ == os[m].object_type);
                        }
                    }
                    assert forall|m: int| 0 <= m < w.len() implies w[m].1 <= k + 1 && w[m].1 > 0 by {
                        if m < j {
                            assert(w[m] == old_out[m]);
                        } else if m > j {
                            assert(w[m] == old_out[m - 1]);
                        }
                    }
                },
            }
            k += 1;
        }
        assert(os.take(os.len() as int) == os);
        out
    }
}

/// The names of `v` are distinct and in character order.
pub open spec fn names_sorted(v: Seq<(String, usize)>) -> bool {
    forall|i: int, j: int|
        #![trigger v[i], v[j]]
        0 <= i < j < v.len() ==> v[i].0@ != v[j].0@ && lex_le(v[i].0@, v[j].0@)
}

/// Insert a new name with a count of one where character order puts it.
fn insert_type(out: &mut Vec<(String, usize)>, t: &String) -> (j: usize)
    requires
        names_sorted(old(out)@),
        forall|m: int| 0 <= m < old(out)@.len() ==> (#[trigger] old(out)@[m]).0@ != t@,
    ensures
        j <= old(out)@.len(),
        final(out)@.len() == old(out)@.len() + 1,
        final(out)@[j as int].0@ == t@,
        final(out)@[j as int].1 == 1,
        forall|m: int| 0 <= m < j ==> final(out)@[m] == old(out)@[m],
        forall|m: int| j < m < final(out)@.len() ==> final(out)@[m] == old(out)@[m - 1],
        names_sorted(final(out)@),
{
    let ghost v = out@;
    let mut j: usize = 0;
    while j < out.len() && lex_le_str(out[j].0.as_str(), t.as_str())
        invariant
            j <= out@.len(),
            out@ == v,
            forall|m: int| 0 <= m < j ==> lex_le((#[trigger] v[m]).0@, t@),
        decreases out@.len() - j,
    {
        j += 1;
    }
    proof {
        if j < v.len() {
            lemma_lex_total(v[j as int].0@, t@);
        }
    }
    out.insert(j, (t.clone(), 1));
    proof {
        let w = out@;
        assert(w == v.insert(j as int, w[j as int]));
        assert forall|a: int, c: int| 0 <= a < c < w.len() implies w[a].0@ != w[c].0@ && lex_le(
            w[a].0@,
            w[c].0@,
        ) by {
            if c < j {
                assert(w[a] == v[a] && w[c] == v[c]);
            } else if c == j {
                assert(w[a] == v[a]);
                assert(v[a].0@ != t@);
            } else if a < j {
                assert(w[a] == v[a] && w[c] == v[c - 1]);
            } else if a == j {
                assert(w[c] == v[c - 1]);
                assert(v[c - 1].0@ != t@);
                if c - 1 > j {
                    lemma_lex_trans(t@, v[j as int].0@, v[c - 1].0@);
                }
            } else {
                assert(w[a] == v[a - 1] && w[c] == v[c - 1]);
            }
        }
    }
    j
}

fn find_type(out: &Vec<(String, usize)>, t: &String) -> (r: Option<usize>)
    ensures
        match r {
            Some(i) => i < out@.len() && out@[i as int].0@ == t@,
            None => forall|j: int| 0 <= j < out@.len() ==> out@[j].0@ != t@,
        },
{
    let mut i: usize = 0;
    while i < out.len()
        invariant
            i <= out@.len(),
            forall|j: int| 0 <= j < i ==> out@[j].0@ != t@,
        decreases out@.len() - i,
    {
        if str_eq(out[i].0.as_str(), t.as_str()) {
            return Some(i);
        }
        i += 1;
    }
    None
}

proof fn lemma_type_count_absent(objs: Seq<ObjectView>, t: Seq<char>)
    requires
        forall|m: int| 0 <= m < objs.len() ==> (#[trigger] objs[m]).object_type != t,
    ensures
        type_count(objs, t) == 0,
    decreases objs.len(),
{
    if objs.len() > 0 {
        lemma_type_count_absent(objs.drop_last(), t);
    }
}

/// Which variant a property value has.
#[derive(Clone, Copy, PartialEq, Eq, Structural, Debug)]
pub enum PropKind {
    String,
    Vector,
    Colour,
    Float,
    Int,
    Quat,
}

pub open spec fn kind_of(v: PropView) -> PropKind {
    match v {
        PropView::String(_) => PropKind::String,
        PropView::Vector(_) => PropKind::Vector,
        PropView::Colour(_) => PropKind::Colour,
        PropView::Float(_) => PropKind::Float,
        PropView::Int(_) => PropKind::Int,
        PropView::Quat(_) => PropKind::Quat,
    }
}

/// The value of the first property named `name` (without ASCII case) whose value is of
/// kind `k`.
pub open spec fn first_of(ps: Seq<PropEntry>, name: Seq<char>, k: PropKind) -> Option<PropView>
    decreases ps.len(),
{
    if ps.len() == 0 {
        None
    } else if lower_seq(ps[0].name) == lower_seq(name) && kind_of(ps[0].value) == k {
        Some(ps[0].value)
    } else {
        first_of(ps.skip(1), name, k)
    }
}

proof fn lemma_first_of_kind(ps: Seq<PropEntry>, name: Seq<char>, k: PropKind)
    ensures
        first_of(ps, name, k) matches Some(v) ==> kind_of(v) == k,
    decreases ps.len(),
{
    if ps.len() > 0 {
        lemma_first_of_kind(ps.skip(1), name, k);
    }
}

pub open spec fn string_or(ps: Seq<PropEntry>, name: Seq<char>, d: Seq<char>) -> Seq<char> {
    match first_of(ps, name, PropKind::String) {
        Some(PropView::String(s)) => s,
        _ => d,
    }
}

pub open spec fn point_of(ps: Seq<PropEntry>, name: Seq<char>) -> Option<Vec3Bits> {
    match first_of(ps, name, PropKind::Vector) {
        Some(PropView::Vector(v)) => Some(v),
        _ => None,
    }
}

pub open spec fn colour_of(ps: Seq<PropEntry>, name: Seq<char>) -> Option<Vec3Bits> {
    match first_of(ps, name, PropKind::Colour) {
        Some(PropView::Colour(v)) => Some(v),
        _ => None,
    }
}

pub open spec fn float_or(ps: Seq<PropEntry>, name: Seq<char>, d: u32) -> u32 {
    match first_of(ps, name, PropKind::Float) {
        Some(PropView::Float(v)) => v,
        _ => d,
    }
}

pub open spec fn int_or(ps: Seq<PropEntry>, name: Seq<char>, d: i32) -> i32 {
    match first_of(ps, name, PropKind::Int) {
        Some(PropView::Int(v)) => v,
        _ => d,
    }
}

pub open spec fn quat_or(ps: Seq<PropEntry>, name: Seq<char>, d: QuatBits) -> QuatBits {
    match first_of(ps, name, PropKind::Quat) {
        Some(PropView::Quat(v)) => v,
        _ => d,
    }
}

impl PropValue {
    pub fn kind(&self) -> (r: PropKind)
        ensures
            r == kind_of(self@),
    {
        match self {
            PropValue::String(_) => PropKind::String,
            PropValue::Vector(_) => PropKind::Vector,
            PropValue::Colour(_) => PropKind::Colour,
            PropValue::Float(_) => PropKind::Float,
            PropValue::Int(_) => PropKind::Int,
            PropValue::Quat(_) => PropKind::Quat,
        }
    }
}

impl RawWorldObject {
    /// The value of the first property named `name` (without ASCII case) whose value is of
    /// kind `kind`.
    pub fn find(&self, name: &str, kind: PropKind) -> (r: Option<&PropValue>)
        ensures
            match r {
                Some(v) => first_of(self@.properties, name@, kind) == Some(v@),
                None => first_of(self@.properties, name@, kind) is None,
            },
    {
        let ghost ps = self@.properties;
        let mut k: usize = 0;
        assert(ps.skip(0) == ps);
        while k < self.properties.len()
            invariant
                k <= self.properties@.len(),
                ps == prop_views(self.properties@),
                first_of(ps, name@, kind) == first_of(ps.skip(k as int), name@, kind),
            decreases self.properties@.len() - k,
        {
            let p = &self.properties[k];
            assert(ps.skip(k as int)[0] == p@);
            assert(ps.skip(k as int).skip(1) == ps.skip(k + 1));
            if eq_ignore_ascii_case(p.name.as_str(), name) && p.value.kind() == kind {
                return Some(&p.value);
            }
            k += 1;
        }
        None
    }

    /// The first string property named `name`.
    pub fn string(&self, name: &str) -> (r: Option<&str>)
        ensures
            match r {
                Some(s) => first_of(self@.properties, name@, PropKind::String) == Some(
                    PropView::String(s@),
                ),
                None => first_of(self@.properties, name@, PropKind::String) is None,
            },
    {
        proof {
            lemma_first_of_kind(self@.properties, name@, PropKind::String);
        }
        match self.find(name, PropKind::String) {
            Some(PropValue::String(s)) => Some(s.as_str()),
            _ => None,
        }
    }

    /// The first point property named `name`.
    pub fn vector(&self, name: &str) -> (r: Option<Vec3Bits>)
        ensures
            r == point_of(self@.properties, name@),
    {
        match self.find(name, PropKind::Vector) {
            Some(PropValue::Vector(v)) => Some(*v),
            _ => None,
        }
    }

    /// The first colour property named `name`.
    pub fn colour(&self, name: &str) -> (r: Option<Vec3Bits>)
        ensures
            r == colour_of(self@.properties, name@),
    {
        match self.find(name, PropKind::Colour) {
            Some(PropValue::Colour(v)) => Some(*v),
            _ => None,
        }
    }

    /// The bits of the first float property named `name`.
    pub fn float(&self, name: &str) -> (r: Option<u32>)
        ensures
            r == match first_of(self@.properties, name@, PropKind::Float) {
                Some(PropView::Float(v)) => Some(v),
                _ => None::<u32>,
            },
    {
        match self.find(name, PropKind::Float) {
            Some(PropValue::Float(v)) => Some(*v),
            _ => None,
        }
    }

    /// The first integer (or flags) property named `name`.
    pub fn integer(&self, name: &str) -> (r: Option<i32>)
        ensures
            r == match first_of(self@.properties, name@, PropKind::Int) {
                Some(PropView::Int(v)) => Some(v),
                _ => None::<i32>,
            },
    {
        match self.find(name, PropKind::Int) {
            Some(PropValue::Int(v)) => Some(*v),
            _ => None,
        }
    }

    /// The first rotation property named `name`.
    pub fn quat(&self, name: &str) -> (r: Option<QuatBits>)
        ensures
            r == match first_of(self@.properties, name@, PropKind::Quat) {
                Some(PropView::Quat(v)) => Some(v),
                _ => None::<QuatBits>,
            },
    {
        match self.find(name, PropKind::Quat) {
            Some(PropValue::Quat(v)) => Some(*v),
            _ => None,
        }
    }
}

/// Bits of 255.0f32, a full colour channel.
pub const FULL_CHANNEL_BITS: u32 = 0x437F_0000;

/// Bits of 25.0f32, the ambient channel of a world without one.
pub const DEFAULT_AMBIENT_BITS: u32 = 0x41C8_0000;

/// In IEEE 754 order, the `f32` with bits `b` is at most the one with bits `limit`, for a
/// `limit` that is neither negative nor NaN: `b` is no larger as a non-negative value, or
/// it is negative and not NaN.
pub open spec fn f32_at_most(b: u32, limit: u32) -> bool {
    b <= limit || (0x8000_0000 <= b && b <= 0xFF80_0000)
}

fn float_at_most(b: u32, limit: u32) -> (r: bool)
    ensures
        r == f32_at_most(b, limit),
{
    b <= limit || (0x8000_0000 <= b && b <= 0xFF80_0000)
}

pub open spec fn identity_quat() -> QuatBits {
    QuatBits { x: 0, y: 0, z: 0, w: ONE_BITS }
}

/// A player start.
#[derive(Debug)]
pub struct GameStart {
    pub name: String,
    pub pos: Vec3Bits,
    pub rotation: QuatBits,
}

pub ghost struct StartView {
    pub name: Seq<char>,
    pub pos: Vec3Bits,
    pub rotation: QuatBits,
}

impl View for GameStart {
    type V = StartView;

    open spec fn view(&self) -> StartView {
        StartView { name: self.name@, pos: self.pos, rotation: self.rotation }
    }
}

/// A point or fill light that gives light: its radius, intensity scale and colour (0 to
/// 255 a channel) by their bits.
#[derive(Debug)]
pub struct WorldLight {
    pub name: String,
    pub position: Vec3Bits,
    pub radius: u32,
    pub scale: u32,
    pub colour: Vec3Bits,
}

pub ghost struct LightView {
    pub name: Seq<char>,
    pub position: Vec3Bits,
    pub radius: u32,
    pub scale: u32,
    pub colour: Vec3Bits,
}

impl View for WorldLight {
    type V = LightView;

    open spec fn view(&self) -> LightView {
        LightView {
            name: self.name@,
            position: self.position,
            radius: self.radius,
            scale: self.scale,
            colour: self.colour,
        }
    }
}

/// A BSP model placed in the world: cars, doors, graffiti, the sky.
#[derive(Debug)]
pub struct WorldModelPlacement {
    pub name: String,
    pub pos: Vec3Bits,
    pub rotation: QuatBits,
    pub hidden: bool,
}

pub ghost struct PlacementView {
    pub name: Seq<char>,
    pub pos: Vec3Bits,
    pub rotation: QuatBits,
    pub hidden: bool,
}

impl View for WorldModelPlacement {
    type V = PlacementView;

    open spec fn view(&self) -> PlacementView {
        PlacementView { name: self.name@, pos: self.pos, rotation: self.rotation, hidden: self.hidden }
    }
}

/// The start a `GameStartPoint` object gives: it needs a position.
pub open spec fn start_of(o: ObjectView) -> Option<StartView> {
    match point_of(o.properties, "Pos"@) {
        None => None,
        Some(p) => Some(
            StartView {
                name: string_or(o.properties, "Name"@, "GameStartPoint"@),
                pos: p,
                rotation: quat_or(o.properties, "Rotation"@, identity_quat()),
            },
        ),
    }
}

/// The light a point or fill light object gives: it needs a position, a radius above 1
/// and an intensity scale above 0.
pub open spec fn light_of(o: ObjectView) -> Option<LightView> {
    let ps = o.properties;
    match point_of(ps, "Pos"@) {
        None => None,
        Some(p) => {
            let radius = float_or(ps, "LightRadius"@, 0);
            let scale = float_or(ps, "IntensityScale"@, ONE_BITS);
            if f32_at_most(radius, ONE_BITS) || f32_at_most(scale, 0) {
                None
            } else {
                Some(
                    LightView {
                        name: string_or(ps, "Name"@, "light"@),
                        position: p,
                        radius,
                        scale,
                        colour: match colour_of(ps, "LightColor"@) {
                            Some(c) => c,
                            None => Vec3Bits {
                                x: FULL_CHANNEL_BITS,
                                y: FULL_CHANNEL_BITS,
                                z: FULL_CHANNEL_BITS,
                            },
                        },
                    },
                )
            }
        },
    }
}

/// The placement a world model object gives: it needs a position.
pub open spec fn placement_of(o: ObjectView) -> Option<PlacementView> {
    let ps = o.properties;
    match point_of(ps, "Pos"@) {
        None => None,
        Some(p) => Some(
            PlacementView {
                name: string_or(ps, "Name"@, "WorldModel"@),
                pos: p,
                rotation: quat_or(ps, "Rotation"@, identity_quat()),
                hidden: int_or(ps, "StartHidden"@, 0) != 0,
            },
        ),
    }
}

/// Object types whose geometry is a named BSP rather than a model file.
pub open spec fn is_world_model_type(t: Seq<char>) -> bool {
    t == "WorldModel"@ || t == "RotatingDoor"@ || t == "SlidingDoor"@ || t
        == "RotatingWorldModel"@ || t == "SlidingWorldModel"@ || t == "SlidingSwitch"@ || t
        == "RotatingSwitch"@ || t == "SpinningWorldModel"@
}

pub open spec fn is_light_type(t: Seq<char>) -> bool {
    t == "LightPoint"@ || t == "LightPointFill"@
}

proof fn lemma_type_names_differ()
    ensures
        !is_light_type("GameStartPoint"@),
        !is_world_model_type("GameStartPoint"@),
        !is_world_model_type("LightPoint"@),
        !is_world_model_type("LightPointFill"@),
        !is_light_type("WorldProperties"@),
        !is_world_model_type("WorldProperties"@),
        "WorldProperties"@ != "GameStartPoint"@,
{
    reveal_strlit("GameStartPoint");
    reveal_strlit("LightPoint");
    reveal_strlit("LightPointFill");
    reveal_strlit("WorldProperties");
    reveal_strlit("WorldModel");
    reveal_strlit("RotatingDoor");
    reveal_strlit("SlidingDoor");
    reveal_strlit("RotatingWorldModel");
    reveal_strlit("SlidingWorldModel");
    reveal_strlit("SlidingSwitch");
    reveal_strlit("RotatingSwitch");
    reveal_strlit("SpinningWorldModel");
    assert("GameStartPoint"@.len() == 14 && "LightPoint"@.len() == 10 && "LightPointFill"@.len()
        == 14 && "WorldProperties"@.len() == 15);
    assert("WorldModel"@.len() == 10 && "RotatingDoor"@.len() == 12 && "SlidingDoor"@.len() == 11
        && "RotatingWorldModel"@.len() == 18 && "SlidingWorldModel"@.len() == 17
        && "SlidingSwitch"@.len() == 13 && "RotatingSwitch"@.len() == 14
        && "SpinningWorldModel"@.len() == 18);
    assert("GameStartPoint"@[0] != "LightPointFill"@[0]);
    assert("GameStartPoint"@[0] != "RotatingSwitch"@[0]);
    assert("LightPointFill"@[0] != "RotatingSwitch"@[0]);
    assert("LightPoint"@[0] != "WorldModel"@[0]);
}

/// The starts of the objects, in file order.
pub open spec fn starts_in(os: Seq<ObjectView>) -> Seq<StartView>
    decreases os.len(),
{
    if os.len() == 0 {
        Seq::empty()
    } else {
        let rest = starts_in(os.drop_last());
        if os.last().object_type == "GameStartPoint"@ {
            match start_of(os.last()) {
                Some(v) => rest.push(v),
                None => rest,
            }
        } else {
            rest
        }
    }
}

/// The lights of the objects, in file order.
pub open spec fn lights_in(os: Seq<ObjectView>) -> Seq<LightView>
    decreases os.len(),
{
    if os.len() == 0 {
        Seq::empty()
    } else {
        let rest = lights_in(os.drop_last());
        if is_light_type(os.last().object_type) {
            match light_of(os.last()) {
                Some(v) => rest.push(v),
                None => rest,
            }
        } else {
            rest
        }
    }
}

/// The world model placements of the objects, in file order.
pub open spec fn placements_in(os: Seq<ObjectView>) -> Seq<PlacementView>
    decreases os.len(),
{
    if os.len() == 0 {
        Seq::empty()
    } else {
        let rest = placements_in(os.drop_last());
        if is_world_model_type(os.last().object_type) {
            match placement_of(os.last()) {
                Some(v) => rest.push(v),
                None => rest,
            }
        } else {
            rest
        }
    }
}

/// The ambient colour (0 to 255 a channel): that of the last world properties object that
/// has one.
pub open spec fn ambient_in(os: Seq<ObjectView>) -> Vec3Bits
    decreases os.len(),
{
    if os.len() == 0 {
        Vec3Bits { x: DEFAULT_AMBIENT_BITS, y: DEFAULT_AMBIENT_BITS, z: DEFAULT_AMBIENT_BITS }
    } else if os.last().object_type == "WorldProperties"@ && colour_of(
        os.last().properties,
        "AmbientLight"@,
    ) is Some {
        colour_of(os.last().properties, "AmbientLight"@).unwrap()
    } else {
        ambient_in(os.drop_last())
    }
}

/// The first start named `name` without ASCII case.
pub open spec fn first_start_named(ss: Seq<StartView>, name: Seq<char>) -> Option<StartView>
    decreases ss.len(),
{
    if ss.len() == 0 {
        None
    } else if lower_seq(ss[0].name) == lower_seq(name) {
        Some(ss[0])
    } else {
        first_start_named(ss.skip(1), name)
    }
}

/// Where the player spawns: at `GameStartPoint00` (without ASCII case), else at the first
/// start.
pub open spec fn spawn_of(ss: Seq<StartView>) -> Option<StartView> {
    match first_start_named(ss, "GameStartPoint00"@) {
        Some(s) => Some(s),
        None => if ss.len() > 0 {
            Some(ss[0])
        } else {
            None
        },
    }
}

/// What the renderer takes of the object section: starts, lights, world model placements
/// and the ambient colour.
#[derive(Debug)]
pub struct WorldObjects {
    pub starts: Vec<GameStart>,
    pub lights: Vec<WorldLight>,
    pub models: Vec<WorldModelPlacement>,
    pub ambient: Vec3Bits,
}

fn start_from(o: &RawWorldObject) -> (r: Option<GameStart>)
    ensures
        match r {
            Some(s) => start_of(o@) == Some(s@),
            None => start_of(o@) is None,
        },
{
    let pos = match o.vector("Pos") {
        Some(p) => p,
        None => {
            return None;
        },
    };
    let name = match o.string("Name") {
        Some(n) => n.to_owned(),
        None => "GameStartPoint".to_owned(),
    };
    let rotation = match o.quat("Rotation") {
        Some(q) => q,
        None => QuatBits { x: 0, y: 0, z: 0, w: ONE_BITS },
    };
    Some(GameStart { name, pos, rotation })
}

fn light_from(o: &RawWorldObject) -> (r: Option<WorldLight>)
    ensures
        match r {
            Some(l) => light_of(o@) == Some(l@),
            None => light_of(o@) is None,
        },
{
    let position = match o.vector("Pos") {
        Some(p) => p,
        None => {
            return None;
        },
    };
    let radius = match o.float("LightRadius") {
        Some(v) => v,
        None => 0,
    };
    let scale = match o.float("IntensityScale") {
        Some(v) => v,
        None => ONE_BITS,
    };
    if float_at_most(radius, ONE_BITS) || float_at_most(scale, 0) {
        return None;
    }
    let name = match o.string("Name") {
        Some(n) => n.to_owned(),
        None => "light".to_owned(),
    };
    let colour = match o.colour("LightColor") {
        Some(c) => c,
        None => Vec3Bits { x: FULL_CHANNEL_BITS, y: FULL_CHANNEL_BITS, z: FULL_CHANNEL_BITS },
    };
    Some(WorldLight { name, position, radius, scale, colour })
}

fn placement_from(o: &RawWorldObject) -> (r: Option<WorldModelPlacement>)
    ensures
        match r {
            Some(m) => placement_of(o@) == Some(m@),
            None => placement_of(o@) is None,
        },
{
    let pos = match o.vector("Pos") {
        Some(p) => p,
        None => {
            return None;
        },
    };
    let name = match o.string("Name") {
        Some(n) => n.to_owned(),
        None => "WorldModel".to_owned(),
    };
    let rotation = match o.quat("Rotation") {
        Some(q) => q,
        None => QuatBits { x: 0, y: 0, z: 0, w: ONE_BITS },
    };
    let hidden = match o.integer("StartHidden") {
        Some(v) => v != 0,
        None => false,
    };
    Some(WorldModelPlacement { name, pos, rotation, hidden })
}

fn world_model_type(t: &str) -> (r: bool)
    ensures
        r == is_world_model_type(t@),
{
    str_eq(t, "WorldModel") || str_eq(t, "RotatingDoor") || str_eq(t, "SlidingDoor") || str_eq(
        t,
        "RotatingWorldModel",
    ) || str_eq(t, "SlidingWorldModel") || str_eq(t, "SlidingSwitch") || str_eq(
        t,
        "RotatingSwitch",
    ) || str_eq(t, "SpinningWorldModel")
}

impl WorldObjects {
    pub closed spec fn start_views(&self) -> Seq<StartView> {
        self.starts@.map_values(|s: GameStart| s@)
    }

    pub closed spec fn light_views(&self) -> Seq<LightView> {
        self.lights@.map_values(|l: WorldLight| l@)
    }

    pub closed spec fn placement_views(&self) -> Seq<PlacementView> {
        self.models@.map_values(|m: WorldModelPlacement| m@)
    }

    /// This value is what the objects `os` give.
    pub open spec fn taken_from(&self, os: Seq<ObjectView>) -> bool {
        &&& self.start_views() == starts_in(os)
        &&& self.light_views() == lights_in(os)
        &&& self.placement_views() == placements_in(os)
        &&& self.ambient == ambient_in(os)
    }

    /// Starts, lights, world model placements and ambient colour of a parsed object
    /// section.
    pub fn from_raw(raw: &RawWorldObjects) -> (r: Self)
        ensures
            r.taken_from(raw.objects_view()),
    {
        let ghost os = raw.objects_view();
        let mut starts: Vec<GameStart> = Vec::new();
        let mut lights: Vec<WorldLight> = Vec::new();
        let mut models: Vec<WorldModelPlacement> = Vec::new();
        let mut ambient = Vec3Bits {
            x: DEFAULT_AMBIENT_BITS,
            y: DEFAULT_AMBIENT_BITS,
            z: DEFAULT_AMBIENT_BITS,
        };
        let mut k: usize = 0;
        assert(os.take(0) =~= Seq::<ObjectView>::empty());
        assert(starts@.map_values(|s: GameStart| s@) =~= Seq::<StartView>::empty());
        assert(lights@.map_values(|l: WorldLight| l@) =~= Seq::<LightView>::empty());
        assert(models@.map_values(|m: WorldModelPlacement| m@) =~= Seq::<PlacementView>::empty());
        while k < raw.objects.len()
            invariant
                k <= raw.objects@.len(),
                os == object_views(raw.objects@),
                starts@.map_values(|s: GameStart| s@) == starts_in(os.take(k as int)),
                lights@.map_values(|l: WorldLight| l@) == lights_in(os.take(k as int)),
                models@.map_values(|m: WorldModelPlacement| m@) == placements_in(os.take(k as int)),
                ambient == ambient_in(os.take(k as int)),
            decreases raw.objects@.len() - k,
        {
            proof {
                lemma_type_names_differ();
            }
            let o = &raw.objects[k];
            let ghost t = os.take(k + 1);
            assert(t.drop_last() == os.take(k as int));
            assert(t.last() == o@);
            let ty = o.object_type.as_str();
            if str_eq(ty, "GameStartPoint") {
                match start_from(o) {
                    Some(s) => {
                        let ghost before = starts@;
                        starts.push(s);
                        assert(starts@.map_values(|s: GameStart| s@) =~= before.map_values(
                            |s: GameStart| s@,
                        ).push(s@));
                    },
                    None => {},
                }
            } else if str_eq(ty, "LightPoint") || str_eq(ty, "LightPointFill") {
                match light_from(o) {
                    Some(l) => {
                        let ghost before = lights@;
                        lights.push(l);
                        assert(lights@.map_values(|l: WorldLight| l@) =~= before.map_values(
                            |l: WorldLight| l@,
                        ).push(l@));
                    },
                    None => {},
                }
            } else if str_eq(ty, "WorldProperties") {
                match o.colour("AmbientLight") {
                    Some(c) => {
                        ambient = c;
                    },
                    None => {},
                }
            } else if world_model_type(ty) {
                match placement_from(o) {
                    Some(m) => {
                        let ghost before = models@;
                        models.push(m);
                        assert(models@.map_values(|m: WorldModelPlacement| m@) =~= before.map_values(
                            |m: WorldModelPlacement| m@,
                        ).push(m@));
                    },
                    None => {},
                }
            }
            k += 1;
        }
        assert(os.take(os.len() as int) == os);
        WorldObjects { starts, lights, models, ambient }
    }

    /// Parse the object section of a world and keep what the renderer takes of it.
    pub fn parse(bytes: &[u8]) -> (r: Result<Self, AssetError>)
        ensures
            match r {
                Ok(w) => raw_objects(bytes@) matches Ok(os) && w.taken_from(os),
                Err(e) => raw_objects(bytes@) == Err::<Seq<ObjectView>, AssetError>(e),
            },
    {
        match RawWorldObjects::parse(bytes) {
            Ok(raw) => Ok(WorldObjects::from_raw(&raw)),
            Err(e) => Err(e),
        }
    }

    /// Where the player spawns: the start named `GameStartPoint00` (without ASCII case),
    /// else the first start.
    pub fn spawn(&self) -> (r: Option<&GameStart>)
        ensures
            match r {
                Some(s) => spawn_of(self.start_views()) == Some(s@),
                None => spawn_of(self.start_views()) is None,
            },
    {
        let ghost ss = self.start_views();
        let mut k: usize = 0;
        assert(ss.skip(0) == ss);
        while k < self.starts.len()
            invariant
                k <= self.starts@.len(),
                ss == self.starts@.map_values(|s: GameStart| s@),
                first_start_named(ss, "GameStartPoint00"@) == first_start_named(
                    ss.skip(k as int),
                    "GameStartPoint00"@,
                ),
            decreases self.starts@.len() - k,
        {
            let s = &self.starts[k];
            assert(ss.skip(k as int)[0] == s@);
            assert(ss.skip(k as int).skip(1) == ss.skip(k + 1));
            if eq_ignore_ascii_case(s.name.as_str(), "GameStartPoint00") {
                return Some(s);
            }
            k += 1;
        }
        if self.starts.len() > 0 {
            Some(&self.starts[0])
        } else {
            None
        }
    }
}

/// Point lights and fill lights are the objects that give lights: an object of type
/// `LightPoint` or `LightPointFill` that has a position, a radius above 1 and a positive
/// intensity scale adds its light after those of the objects before it; an object of
/// any other type, or one that lacks these, adds none.
pub proof fn law_lights_from_point_and_fill(os: Seq<ObjectView>, o: ObjectView)
    ensures
        lights_in(Seq::<ObjectView>::empty()) == Seq::<LightView>::empty(),
        lights_in(os.push(o)) == (if (o.object_type == "LightPoint"@ || o.object_type
            == "LightPointFill"@) && light_of(o) is Some {
            lights_in(os).push(light_of(o).unwrap())
        } else {
            lights_in(os)
        }),
{
    assert(os.push(o).drop_last() == os);
}

/// The lights are those of the point and fill light objects that give one, in file order.
pub proof fn law_lights_are_light_objects(os: Seq<ObjectView>)
    ensures
        lights_in(os) == os.filter(
            |o: ObjectView| (o.object_type == "LightPoint"@ || o.object_type == "LightPointFill"@)
                && light_of(o) is Some,
        ).map_values(|o: ObjectView| light_of(o).unwrap()),
    decreases os.len(),
{
    let f = |o: ObjectView| (o.object_type == "LightPoint"@ || o.object_type == "LightPointFill"@)
        && light_of(o) is Some;
    let g = |o: ObjectView| light_of(o).unwrap();
    if os.len() == 0 {
        assert(os.filter(f) =~= Seq::<ObjectView>::empty());
        assert(os.filter(f).map_values(g) =~= Seq::<LightView>::empty());
    } else {
        let init = os.drop_last();
        law_lights_are_light_objects(init);
        law_lights_from_point_and_fill(init, os.last());
        assert(init.push(os.last()) == os);
        init.lemma_filter_push(os.last(), f);
        if f(os.last()) {
            assert(init.filter(f).push(os.last()).map_values(g) =~= init.filter(f).map_values(g).push(
                g(os.last()),
            ));
        }
    }
}

/// Player starts come from `GameStartPoint` objects with a position, and world model
/// placements from the BSP-backed types (`WorldModel`, `RotatingDoor`, `SlidingDoor`,
/// `RotatingWorldModel`, `SlidingWorldModel`, `SlidingSwitch`, `RotatingSwitch`,
/// `SpinningWorldModel`) with a position: one more such object adds its start or placement
/// after those of the objects before it, and any other object adds none.
pub proof fn law_starts_and_placements_by_type(os: Seq<ObjectView>, o: ObjectView)
    ensures
        starts_in(os.push(o)) == (if o.object_type == "GameStartPoint"@ && start_of(o) is Some {
            starts_in(os).push(start_of(o).unwrap())
        } else {
            starts_in(os)
        }),
        placements_in(os.push(o)) == (if (o.object_type == "WorldModel"@ || o.object_type
            == "RotatingDoor"@ || o.object_type == "SlidingDoor"@ || o.object_type
            == "RotatingWorldModel"@ || o.object_type == "SlidingWorldModel"@ || o.object_type
            == "SlidingSwitch"@ || o.object_type == "RotatingSwitch"@ || o.object_type
            == "SpinningWorldModel"@) && placement_of(o) is Some {
            placements_in(os).push(placement_of(o).unwrap())
        } else {
            placements_in(os)
        }),
{
    assert(os.push(o).drop_last() == os);
}

} // verus!
