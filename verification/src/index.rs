//! The in-memory index of a file's contents.
//!
//! A [`FileScanner`] consumes segment metadata in file order and rebuilds
//! the effective per-channel state: the ordered active channel list, the
//! persistent object registry with merged properties, and the data-block
//! locations.  [`Index`] is the finished, read-only result.

use vstd::prelude::*;

use crate::byte_io::str_eq;
use crate::error::TdmsError;
use crate::meta_data::{
    ObjectMetaData, ObjectMetaView, PropertyValue, RawDataIndex, RawDataMeta, SegmentMetaData,
    LEAD_IN_BYTES,
};
use crate::raw_data::{block_from_parts, spec_block, DataBlock, DataBlockView};

verus! {

/// A store for a given channel pointing to the data block with its data
/// and the index within that.
#[derive(Debug, Clone, Copy, PartialEq, Eq, Structural)]
pub struct DataLocation {
    /// The index of the data block with the data in.
    pub data_block: usize,
    /// The channel index in that block.
    pub channel_index: usize,
}

/// Represents actual data formats that can store data.
#[derive(Clone, Copy, PartialEq, Eq, Debug)]
pub enum DataFormat {
    RawData(RawDataMeta),
}

/// The raw-data description a format carries.
pub open spec fn spec_format_meta(f: DataFormat) -> RawDataMeta {
    match f {
        DataFormat::RawData(m) => m,
    }
}

/// The data format named by a raw-data index: a full description yields
/// one, the other indices none.
pub open spec fn spec_format_of_index(idx: RawDataIndex) -> Option<DataFormat> {
    match idx {
        RawDataIndex::RawData(m) => Some(DataFormat::RawData(m)),
        _ => Option::None,
    }
}

impl DataFormat {
    fn from_index(index: &RawDataIndex) -> (r: Option<DataFormat>)
        ensures
            r == spec_format_of_index(*index),
    {
        match index {
            RawDataIndex::RawData(raw_meta) => Some(DataFormat::RawData(*raw_meta)),
            _ => Option::None,
        }
    }
}

/// One object as the registry holds it.
pub struct ObjectData {
    pub path: String,
    /// Property pairs in first-seen order; names are unique.
    pub properties: Vec<(String, PropertyValue)>,
    pub data_locations: Vec<DataLocation>,
    pub latest_data_format: Option<DataFormat>,
}

/// The specification-level image of a registry object: its properties as
/// a name-to-value map.
#[verifier::ext_equal]
pub struct ObjectView {
    pub path: Seq<char>,
    pub properties: Map<Seq<char>, PropertyValue>,
    pub data_locations: Seq<DataLocation>,
    pub latest_data_format: Option<RawDataMeta>,
}

/// Property pairs of an object's metadata, with names as character
/// sequences.
pub open spec fn pairs_view(s: Seq<(String, PropertyValue)>) -> Seq<(Seq<char>, PropertyValue)> {
    Seq::new(s.len(), |i: int| (s[i].0@, s[i].1))
}

/// Merge property pairs into a map, in order: a later pair for the same
/// name wins.
pub open spec fn merge_props(
    m: Map<Seq<char>, PropertyValue>,
    pairs: Seq<(Seq<char>, PropertyValue)>,
) -> Map<Seq<char>, PropertyValue>
    decreases pairs.len(),
{
    if pairs.len() == 0 {
        m
    } else {
        merge_props(m, pairs.drop_last()).insert(pairs.last().0, pairs.last().1)
    }
}

/// The map a property list denotes on its own.
pub open spec fn props_of_pairs(pairs: Seq<(Seq<char>, PropertyValue)>) -> Map<
    Seq<char>,
    PropertyValue,
> {
    merge_props(Map::empty(), pairs)
}

/// No property name repeats in the list.
pub open spec fn prop_names_unique(pairs: Seq<(Seq<char>, PropertyValue)>) -> bool {
    forall|i: int, j: int| 0 <= i < j < pairs.len() ==> pairs[i].0 != pairs[j].0
}

/// Merging accumulates key by key: the merged map holds a name exactly
/// when the base map or some pair holds it.
pub proof fn lemma_merge_props_dom(
    m: Map<Seq<char>, PropertyValue>,
    pairs: Seq<(Seq<char>, PropertyValue)>,
    name: Seq<char>,
)
    ensures
        merge_props(m, pairs).dom().contains(name) <==> m.dom().contains(name) || exists|i: int|
            0 <= i < pairs.len() && pairs[i].0 == name,
    decreases pairs.len(),
{
    if pairs.len() > 0 {
        lemma_merge_props_dom(m, pairs.drop_last(), name);
        if exists|i: int| 0 <= i < pairs.len() && pairs[i].0 == name {
            let i = choose|i: int| 0 <= i < pairs.len() && pairs[i].0 == name;
            if i < pairs.len() - 1 {
                assert(pairs.drop_last()[i].0 == name);
            }
        }
    }
}

/// Last write wins: the merged value of a name is the value of the last
/// pair that carries it, and names no pair carries keep their value from
/// the base map.
pub proof fn lemma_merge_props_last_wins(
    m: Map<Seq<char>, PropertyValue>,
    pairs: Seq<(Seq<char>, PropertyValue)>,
    i: int,
)
    requires
        0 <= i < pairs.len(),
        forall|j: int| i < j < pairs.len() ==> pairs[j].0 != pairs[i].0,
    ensures
        merge_props(m, pairs).dom().contains(pairs[i].0),
        merge_props(m, pairs)[pairs[i].0] == pairs[i].1,
    decreases pairs.len(),
{
    if i == pairs.len() - 1 {
    } else {
        assert(pairs.drop_last()[i] == pairs[i]);
        lemma_merge_props_last_wins(m, pairs.drop_last(), i);
    }
}

/// A name no pair carries is untouched by the merge.
pub proof fn lemma_merge_props_untouched(
    m: Map<Seq<char>, PropertyValue>,
    pairs: Seq<(Seq<char>, PropertyValue)>,
    name: Seq<char>,
)
    requires
        forall|i: int| 0 <= i < pairs.len() ==> pairs[i].0 != name,
    ensures
        merge_props(m, pairs).dom().contains(name) == m.dom().contains(name),
        m.dom().contains(name) ==> merge_props(m, pairs)[name] == m[name],
    decreases pairs.len(),
{
    if pairs.len() > 0 {
        assert(forall|i: int|
            0 <= i < pairs.drop_last().len() ==> pairs.drop_last()[i].0 != name);
        lemma_merge_props_untouched(m, pairs.drop_last(), name);
    }
}

/// The position of the last pair carrying a name, or a negative value
/// when none does.
pub open spec fn last_prop_index(pairs: Seq<(Seq<char>, PropertyValue)>, name: Seq<char>) -> int
    decreases pairs.len(),
{
    if pairs.len() == 0 {
        -1
    } else if pairs.last().0 == name {
        pairs.len() - 1
    } else {
        last_prop_index(pairs.drop_last(), name)
    }
}

/// What `last_prop_index` finds: the last pair with the name, or a
/// witness that none carries it.
proof fn lemma_last_prop_index(pairs: Seq<(Seq<char>, PropertyValue)>, name: Seq<char>)
    ensures
        -1 <= last_prop_index(pairs, name) < pairs.len(),
        last_prop_index(pairs, name) >= 0 ==> pairs[last_prop_index(pairs, name)].0 == name,
        last_prop_index(pairs, name) >= 0 ==> forall|j: int|
            last_prop_index(pairs, name) < j < pairs.len() ==> pairs[j].0 != name,
        last_prop_index(pairs, name) == -1 ==> forall|j: int|
            0 <= j < pairs.len() ==> pairs[j].0 != name,
    decreases pairs.len(),
{
    if pairs.len() > 0 && pairs.last().0 != name {
        lemma_last_prop_index(pairs.drop_last(), name);
        assert(forall|j: int| 0 <= j < pairs.len() - 1 ==> pairs[j] == pairs.drop_last()[j]);
    }
}

/// Last write wins, name by name: the merged value of every name is
/// the value of the last pair that carries it, and a name no pair
/// carries keeps its standing in the base map.  The outcome is thus a
/// function of each name's last occurrence alone, whatever the
/// insertion order of distinct names.
pub proof fn lemma_merge_props_characterization(
    m: Map<Seq<char>, PropertyValue>,
    pairs: Seq<(Seq<char>, PropertyValue)>,
    name: Seq<char>,
)
    ensures
        last_prop_index(pairs, name) >= 0 ==> merge_props(m, pairs).dom().contains(name)
            && merge_props(m, pairs)[name] == pairs[last_prop_index(pairs, name)].1,
        last_prop_index(pairs, name) == -1 ==> merge_props(m, pairs).dom().contains(name)
            == m.dom().contains(name) && (m.dom().contains(name) ==> merge_props(m, pairs)[name]
            == m[name]),
{
    lemma_last_prop_index(pairs, name);
    let idx = last_prop_index(pairs, name);
    if idx >= 0 {
        lemma_merge_props_last_wins(m, pairs, idx);
    } else {
        lemma_merge_props_untouched(m, pairs, name);
    }
}

/// Two adjacent pairs with different names may merge in either order:
/// property merging is insensitive to the insertion order of
/// non-conflicting names.
pub proof fn lemma_merge_props_swap(
    m: Map<Seq<char>, PropertyValue>,
    pairs: Seq<(Seq<char>, PropertyValue)>,
    a: (Seq<char>, PropertyValue),
    b: (Seq<char>, PropertyValue),
)
    requires
        a.0 != b.0,
    ensures
        merge_props(m, pairs.push(a).push(b)) == merge_props(m, pairs.push(b).push(a)),
{
    let s1 = pairs.push(a).push(b);
    let s2 = pairs.push(b).push(a);
    let base = merge_props(m, pairs);
    assert(pairs.push(a).drop_last() =~= pairs);
    assert(pairs.push(b).drop_last() =~= pairs);
    assert(merge_props(m, pairs.push(a)) == base.insert(a.0, a.1));
    assert(merge_props(m, pairs.push(b)) == base.insert(b.0, b.1));
    assert(s1.drop_last() =~= pairs.push(a));
    assert(s2.drop_last() =~= pairs.push(b));
    assert(merge_props(m, s1) == merge_props(m, pairs.push(a)).insert(b.0, b.1));
    assert(merge_props(m, s2) == merge_props(m, pairs.push(b)).insert(a.0, a.1));
    assert(base.insert(a.0, a.1).insert(b.0, b.1) =~= base.insert(b.0, b.1).insert(a.0, a.1));
}

/// The position of a property name in a pair list, where it occurs.
fn find_prop(props: &Vec<(String, PropertyValue)>, name: &str) -> (r: Option<usize>)
    ensures
        match r {
            Some(j) => j < props@.len() && props@[j as int].0@ == name@,
            Option::None => forall|k: int| 0 <= k < props@.len() ==> props@[k].0@ != name@,
        },
{
    let n = props.len();
    let mut j: usize = 0;
    while j < n
        invariant
            n == props@.len(),
            j <= n,
            forall|k: int| 0 <= k < j ==> props@[k].0@ != name@,
        decreases n - j,
    {
        if str_eq(props[j].0.as_str(), name) {
            return Some(j);
        }
        j = j + 1;
    }
    Option::None
}

impl ObjectData {
    /// Properties with names as character sequences, in stored order.
    pub open spec fn prop_pairs(&self) -> Seq<(Seq<char>, PropertyValue)> {
        pairs_view(self.properties@)
    }

    /// Stored property names are unique.
    pub open spec fn props_wf(&self) -> bool {
        prop_names_unique(self.prop_pairs())
    }

    /// Merge an object's segment metadata into this entry: properties
    /// last-write-wins, and the layout replaced where a full description
    /// is carried.
    fn update(&mut self, other: ObjectMetaData)
        requires
            old(self).props_wf(),
        ensures
            final(self).props_wf(),
            final(self)@ == updated_object(old(self)@, other@),
    {
        let ghost o_view = other@;
        let ghost m0 = props_of_pairs(old(self).prop_pairs());
        let mut props = other.properties;
        let ghost opairs = o_view.properties;
        let ghost total: int = props@.len() as int;
        proof {
            assert(pairs_view(props@) =~= opairs);
            assert(opairs.take(0) =~= Seq::<(Seq<char>, PropertyValue)>::empty());
        }
        while props.len() > 0
            invariant
                self.props_wf(),
                self.path == old(self).path,
                self.data_locations == old(self).data_locations,
                self.latest_data_format == old(self).latest_data_format,
                props@.len() <= total,
                opairs.len() == total,
                pairs_view(props@) =~= opairs.skip(total - props@.len()),
                props_of_pairs(self.prop_pairs()) == merge_props(
                    m0,
                    opairs.take(total - props@.len()),
                ),
            decreases props@.len(),
        {
            let ghost k = total - props@.len();
            let ghost self_pairs = self.prop_pairs();
            let ghost before = props@;
            let (name, value) = props.remove(0);
            proof {
                assert(pairs_view(before)[0] == opairs.skip(k)[0]);
                assert(opairs.skip(k)[0] == opairs[k]);
                assert(opairs[k] == (name@, value));
                assert(props@ =~= before.drop_first());
                assert forall|m: int| 0 <= m < props@.len() implies pairs_view(props@)[m]
                    == opairs.skip(k + 1)[m] by {
                    assert(pairs_view(props@)[m] == (before[m + 1].0@, before[m + 1].1));
                    assert(pairs_view(before)[m + 1] == opairs.skip(k)[m + 1]);
                    assert(opairs.skip(k)[m + 1] == opairs[k + 1 + m]);
                    assert(opairs.skip(k + 1)[m] == opairs[k + 1 + m]);
                }
                assert(pairs_view(props@) =~= opairs.skip(k + 1));
                assert(opairs.take(k + 1).drop_last() =~= opairs.take(k));
                assert(opairs.take(k + 1).last() == opairs[k]);
            }
            match find_prop(&self.properties, name.as_str()) {
                Some(j) => {
                    proof {
                        lemma_props_update(
                            Map::empty(),
                            self_pairs,
                            j as int,
                            (name@, value),
                        );
                    }
                    self.properties[j] = (name, value);
                    proof {
                        assert(self.prop_pairs() =~= self_pairs.update(
                            j as int,
                            (name@, value),
                        ));
                    }
                },
                Option::None => {
                    self.properties.push((name, value));
                    proof {
                        assert(self.prop_pairs() =~= self_pairs.push((name@, value)));
                        assert(self.prop_pairs().drop_last() =~= self_pairs);
                    }
                },
            }
        }
        proof {
            assert(opairs.take(total) =~= opairs);
        }
        match DataFormat::from_index(&other.raw_data_index) {
            Some(format) => {
                self.latest_data_format = Some(format);
            },
            Option::None => {},
        }
        proof {
            assert(self@ =~= updated_object(old(self)@, o_view));
        }
    }

    /// The registry entry for a path seen for the first time.
    fn from_metadata(meta: ObjectMetaData) -> (o: ObjectData)
        ensures
            o.props_wf(),
            o@ == new_object(meta@),
    {
        let path = meta.path.clone();
        let mut new = ObjectData {
            path,
            properties: Vec::new(),
            data_locations: Vec::new(),
            latest_data_format: Option::None,
        };
        proof {
            assert(new.prop_pairs() =~= Seq::<(Seq<char>, PropertyValue)>::empty());
        }
        new.update(meta);
        proof {
            assert(new@ =~= new_object(meta@));
        }
        new
    }
}

/// The specification-level state of a scanner: the active paths in
/// order, the registry entries in first-seen order, the blocks in file
/// order, and the absolute offset of the next segment.
#[verifier::ext_equal]
pub struct ScannerView {
    pub active: Seq<Seq<char>>,
    pub registry: Seq<ObjectView>,
    pub blocks: Seq<DataBlockView>,
    pub next_segment_start: u64,
}

/// The first registry index holding the path, or a negative value when
/// none does.
pub open spec fn obj_index(reg: Seq<ObjectView>, path: Seq<char>) -> int
    decreases reg.len(),
{
    if reg.len() == 0 {
        -1
    } else if reg[0].path == path {
        0
    } else {
        let r = obj_index(reg.drop_first(), path);
        if r < 0 {
            -1
        } else {
            r + 1
        }
    }
}

/// Whether the registry holds the path.
pub open spec fn reg_has(reg: Seq<ObjectView>, path: Seq<char>) -> bool {
    obj_index(reg, path) >= 0
}

/// Whether the registry holds the path with a data layout on record.
pub open spec fn reg_has_format(reg: Seq<ObjectView>, path: Seq<char>) -> bool {
    reg_has(reg, path) && reg[obj_index(reg, path)].latest_data_format is Some
}

/// What `obj_index` finds: the first entry with the path, or a witness
/// that none has it.
pub proof fn lemma_obj_index(reg: Seq<ObjectView>, path: Seq<char>)
    ensures
        -1 <= obj_index(reg, path) < reg.len(),
        obj_index(reg, path) >= 0 ==> reg[obj_index(reg, path)].path == path,
        obj_index(reg, path) >= 0 ==> forall|j: int|
            0 <= j < obj_index(reg, path) ==> reg[j].path != path,
        obj_index(reg, path) == -1 ==> forall|j: int| 0 <= j < reg.len() ==> reg[j].path != path,
    decreases reg.len(),
{
    if reg.len() > 0 && reg[0].path != path {
        lemma_obj_index(reg.drop_first(), path);
        assert(forall|j: int|
            1 <= j < reg.len() ==> reg[j] == reg.drop_first()[j - 1]);
    }
}

/// The updated registry entry after one object's metadata is applied to
/// it: properties merged last-write-wins, and the layout replaced where
/// the object carries a full description.
pub open spec fn updated_object(e: ObjectView, o: ObjectMetaView) -> ObjectView {
    ObjectView {
        path: e.path,
        properties: merge_props(e.properties, o.properties),
        data_locations: e.data_locations,
        latest_data_format: match spec_format_of_index(o.raw_data_index) {
            Some(f) => Some(spec_format_meta(f)),
            Option::None => e.latest_data_format,
        },
    }
}

/// The registry entry created on first sighting of a path.
pub open spec fn new_object(o: ObjectMetaView) -> ObjectView {
    ObjectView {
        path: o.path,
        properties: props_of_pairs(o.properties),
        data_locations: Seq::empty(),
        latest_data_format: match spec_format_of_index(o.raw_data_index) {
            Some(f) => Some(spec_format_meta(f)),
            Option::None => Option::None,
        },
    }
}

/// Upsert: update the entry for the object's path, or append a new one.
pub open spec fn upsert_object(reg: Seq<ObjectView>, o: ObjectMetaView) -> Seq<ObjectView> {
    let i = obj_index(reg, o.path);
    if i >= 0 {
        reg.update(i, updated_object(reg[i], o))
    } else {
        reg.push(new_object(o))
    }
}

/// Apply one object of a segment to the scanner state, following the
/// format's rules table.  `None` marks the fatal case: a
/// match-previous index for an object with no layout on record.
pub open spec fn apply_object(st: ScannerView, o: ObjectMetaView) -> Option<ScannerView> {
    match o.raw_data_index {
        RawDataIndex::NoData => Some(
            ScannerView { registry: upsert_object(st.registry, o), ..st },
        ),
        _ => {
            if st.active.contains(o.path) {
                Some(ScannerView { registry: upsert_object(st.registry, o), ..st })
            } else if o.raw_data_index is MatchPrevious && !reg_has_format(st.registry, o.path) {
                Option::None
            } else {
                Some(
                    ScannerView {
                        active: st.active.push(o.path),
                        registry: upsert_object(st.registry, o),
                        ..st
                    },
                )
            }
        },
    }
}

/// Apply a segment's objects in order; the first fatal object aborts.
pub open spec fn apply_objects(st: ScannerView, objs: Seq<ObjectMetaView>) -> Option<ScannerView>
    decreases objs.len(),
{
    if objs.len() == 0 {
        Some(st)
    } else {
        match apply_object(st, objs[0]) {
            Some(st1) => apply_objects(st1, objs.drop_first()),
            Option::None => Option::None,
        }
    }
}

/// The path of the first fatal object of a segment.
pub open spec fn first_missing_path(st: ScannerView, objs: Seq<ObjectMetaView>) -> Seq<char>
    decreases objs.len(),
{
    if objs.len() == 0 {
        Seq::empty()
    } else {
        match apply_object(st, objs[0]) {
            Some(st1) => first_missing_path(st1, objs.drop_first()),
            Option::None => objs[0].path,
        }
    }
}

/// The channel descriptions of the active objects, in active-list order.
pub open spec fn active_channels(st: ScannerView) -> Seq<RawDataMeta> {
    Seq::new(
        st.active.len(),
        |i: int| st.registry[obj_index(st.registry, st.active[i])].latest_data_format.unwrap(),
    )
}

/// Append a given block, and give every active object a location in it,
/// in active-list order.
pub open spec fn push_block_view(st: ScannerView, block: DataBlockView) -> ScannerView {
    let block_index = st.blocks.len();
    ScannerView {
        active: st.active,
        registry: Seq::new(
            st.registry.len(),
            |j: int|
                if st.active.contains(st.registry[j].path) {
                    ObjectView {
                        data_locations: st.registry[j].data_locations.push(
                            DataLocation {
                                data_block: block_index as usize,
                                channel_index: st.active.index_of(st.registry[j].path) as usize,
                            },
                        ),
                        ..st.registry[j]
                    }
                } else {
                    st.registry[j]
                },
        ),
        blocks: st.blocks.push(block),
        next_segment_start: st.next_segment_start,
    }
}

/// Append the data block a segment lays out, and give every active
/// object a location in it, in active-list order.
pub open spec fn add_block(
    st: ScannerView,
    toc: crate::meta_data::ToC,
    next_segment_offset: u64,
    raw_data_offset: u64,
) -> ScannerView {
    push_block_view(
        st,
        spec_block(
            toc,
            next_segment_offset,
            raw_data_offset,
            st.next_segment_start,
            active_channels(st),
        ),
    )
}

/// The whole effect of one segment on the scanner state, or `None` for
/// a fatal segment: clear the active list if a new one is declared,
/// apply the objects in order, materialize a data block if raw data is
/// present, and advance the running offset.
pub open spec fn spec_add_segment(st: ScannerView, seg: crate::meta_data::SegmentMetaView) -> Option<
    ScannerView,
> {
    let st0 = if seg.toc.contains_new_object_list {
        ScannerView { active: Seq::empty(), ..st }
    } else {
        st
    };
    match apply_objects(st0, seg.objects) {
        Option::None => Option::None,
        Some(st1) => {
            let st2 = if seg.toc.contains_raw_data {
                add_block(st1, seg.toc, seg.next_segment_offset, seg.raw_data_offset)
            } else {
                st1
            };
            Some(
                ScannerView {
                    next_segment_start: (st2.next_segment_start + seg.next_segment_offset
                        + LEAD_IN_BYTES) as u64,
                    ..st2
                },
            )
        },
    }
}

/// The state a segment starts from: the active list survives unless the
/// segment declares a new object list.
pub open spec fn seg_start_state(st: ScannerView, seg: crate::meta_data::SegmentMetaView) -> ScannerView {
    if seg.toc.contains_new_object_list {
        ScannerView { active: Seq::empty(), ..st }
    } else {
        st
    }
}

/// The machine limits a segment must respect before it can be added:
/// its raw data lies inside it, and the advanced file offset still fits.
pub open spec fn segment_fits(st: ScannerView, seg: crate::meta_data::SegmentMetaView) -> bool {
    &&& seg.raw_data_offset <= seg.next_segment_offset
    &&& st.next_segment_start + seg.next_segment_offset + LEAD_IN_BYTES <= u64::MAX
}

/// Within one segment, a path has a layout on record exactly when the
/// registry had one at the segment's start or the path has become
/// active since.
spec fn formats_relative(base: Seq<ObjectView>, st: ScannerView) -> bool {
    forall|p: Seq<char>|
        #![trigger reg_has_format(st.registry, p)]
        #![trigger st.active.contains(p)]
        reg_has_format(st.registry, p) <==> reg_has_format(base, p) || st.active.contains(p)
}

/// Applying one object preserves the format bookkeeping of
/// `formats_relative`, and keeps registry paths unique.
proof fn lemma_apply_object_formats(base: Seq<ObjectView>, st: ScannerView, o: ObjectMetaView)
    requires
        forall|i: int, j: int|
            0 <= i < j < st.registry.len() ==> st.registry[i].path != st.registry[j].path,
        formats_relative(base, st),
        apply_object(st, o) is Some,
    ensures
        forall|i: int, j: int|
            0 <= i < j < apply_object(st, o).unwrap().registry.len() ==> apply_object(
                st,
                o,
            ).unwrap().registry[i].path != apply_object(st, o).unwrap().registry[j].path,
        formats_relative(base, apply_object(st, o).unwrap()),
{
    let st1 = apply_object(st, o).unwrap();
    lemma_obj_index(st.registry, o.path);
    lemma_upsert_object(st.registry, o);
    let up = upsert_object(st.registry, o);
    assert forall|p: Seq<char>| p != o.path implies reg_has_format(up, p) == reg_has_format(
        st.registry,
        p,
    ) by {
        lemma_obj_index(st.registry, p);
        lemma_obj_index(up, p);
        if obj_index(st.registry, p) >= 0 {
            assert(st.registry[obj_index(st.registry, p)].path == p);
            assert(up[obj_index(st.registry, p)] == st.registry[obj_index(st.registry, p)]);
        }
    }
    assert forall|p: Seq<char>| p != o.path && st1.active.contains(p) implies st.active.contains(
        p,
    ) by {
        let k = choose|k: int| 0 <= k < st1.active.len() && st1.active[k] == p;
        if k < st.active.len() {
            assert(st.active[k] == p);
        }
    }
    assert forall|p: Seq<char>| p != o.path && st.active.contains(p) implies st1.active.contains(
        p,
    ) by {
        let k = choose|k: int| 0 <= k < st.active.len() && st.active[k] == p;
        assert(st1.active[k] == p);
    }
    if o.raw_data_index is NoData {
        assert(st1.active == st.active);
    } else if st.active.contains(o.path) {
        assert(reg_has_format(st.registry, o.path));
        assert(reg_has_format(up, o.path));
        assert(st1.active == st.active);
    } else {
        assert(st1.active == st.active.push(o.path));
        assert(st1.active[st.active.len() as int] == o.path);
        assert(st1.active.contains(o.path));
        if o.raw_data_index is MatchPrevious {
            assert(reg_has_format(st.registry, o.path));
            assert(reg_has_format(up, o.path));
        } else {
            assert(o.raw_data_index is RawData);
            assert(reg_has_format(up, o.path));
        }
    }
}

impl View for ObjectData {
    type V = ObjectView;

    open spec fn view(&self) -> ObjectView {
        ObjectView {
            path: self.path@,
            properties: props_of_pairs(self.prop_pairs()),
            data_locations: self.data_locations@,
            latest_data_format: match self.latest_data_format {
                Some(f) => Some(spec_format_meta(f)),
                Option::None => Option::None,
            },
        }
    }
}

/// Replacing an entry with one of the same path moves no search result.
proof fn lemma_obj_index_update(reg: Seq<ObjectView>, i: int, e: ObjectView, p: Seq<char>)
    requires
        0 <= i < reg.len(),
        e.path == reg[i].path,
    ensures
        obj_index(reg.update(i, e), p) == obj_index(reg, p),
    decreases reg.len(),
{
    let reg2 = reg.update(i, e);
    if i == 0 {
        assert(reg2[0] == e);
        if reg[0].path != p {
            assert(reg2.drop_first() =~= reg.drop_first());
        }
    } else {
        assert(reg2[0] == reg[0]);
        if reg[0].path != p {
            assert(reg2.drop_first() =~= reg.drop_first().update(i - 1, e));
            lemma_obj_index_update(reg.drop_first(), i - 1, e, p);
        }
    }
}

/// Appending an entry leaves earlier search results in place, and makes
/// its own path found at the end.
proof fn lemma_obj_index_push(reg: Seq<ObjectView>, x: ObjectView, p: Seq<char>)
    ensures
        obj_index(reg.push(x), p) == if obj_index(reg, p) >= 0 {
            obj_index(reg, p)
        } else if x.path == p {
            reg.len() as int
        } else {
            -1
        },
    decreases reg.len(),
{
    if reg.len() == 0 {
        assert(reg.push(x)[0] == x);
        if x.path == p {
            assert(obj_index(reg.push(x), p) == 0);
            assert(obj_index(reg, p) == -1);
        } else {
            assert(reg.push(x).drop_first() =~= Seq::<ObjectView>::empty());
            assert(obj_index(reg.push(x).drop_first(), p) == -1);
            assert(obj_index(reg.push(x), p) == -1);
            assert(obj_index(reg, p) == -1);
        }
    } else {
        assert(reg.push(x)[0] == reg[0]);
        if reg[0].path != p {
            assert(reg.push(x).drop_first() =~= reg.drop_first().push(x));
            lemma_obj_index_push(reg.drop_first(), x, p);
            assert(obj_index(reg.push(x), p) == (if obj_index(reg.push(x).drop_first(), p) < 0 {
                -1
            } else {
                obj_index(reg.push(x).drop_first(), p) + 1
            }));
            assert(obj_index(reg, p) == (if obj_index(reg.drop_first(), p) < 0 {
                -1
            } else {
                obj_index(reg.drop_first(), p) + 1
            }));
        }
    }
}

/// What an upsert does to the registry: the object's own entry is
/// updated or appended, every other entry and every search result
/// stands, and a layout on record is never lost.
proof fn lemma_upsert_object(reg: Seq<ObjectView>, o: ObjectMetaView)
    requires
        forall|i: int, j: int| 0 <= i < j < reg.len() ==> reg[i].path != reg[j].path,
    ensures
        forall|i: int, j: int|
            0 <= i < j < upsert_object(reg, o).len() ==> upsert_object(reg, o)[i].path
                != upsert_object(reg, o)[j].path,
        forall|p: Seq<char>|
            p != o.path ==> obj_index(upsert_object(reg, o), p) == obj_index(reg, p),
        reg_has(reg, o.path) ==> upsert_object(reg, o).len() == reg.len() && obj_index(
            upsert_object(reg, o),
            o.path,
        ) == obj_index(reg, o.path),
        !reg_has(reg, o.path) ==> upsert_object(reg, o).len() == reg.len() + 1 && obj_index(
            upsert_object(reg, o),
            o.path,
        ) == reg.len(),
        forall|j: int|
            0 <= j < reg.len() && reg[j].path != o.path ==> upsert_object(reg, o)[j] == reg[j],
        reg_has(reg, o.path) ==> upsert_object(reg, o)[obj_index(reg, o.path)] == updated_object(
            reg[obj_index(reg, o.path)],
            o,
        ),
        !reg_has(reg, o.path) ==> upsert_object(reg, o)[reg.len() as int] == new_object(o),
        forall|p: Seq<char>|
            reg_has_format(reg, p) ==> reg_has_format(#[trigger] upsert_object(reg, o), p),
        reg_has_format(upsert_object(reg, o), o.path) == (o.raw_data_index is RawData
            || reg_has_format(reg, o.path)),
{
    lemma_obj_index(reg, o.path);
    let up = upsert_object(reg, o);
    let i0 = obj_index(reg, o.path);
    if i0 >= 0 {
        assert forall|p: Seq<char>| true implies obj_index(up, p) == obj_index(reg, p) by {
            lemma_obj_index_update(reg, i0, updated_object(reg[i0], o), p);
        }
        assert forall|p: Seq<char>| reg_has_format(reg, p) implies reg_has_format(up, p) by {
            lemma_obj_index(reg, p);
            if obj_index(reg, p) != i0 {
                assert(up[obj_index(reg, p)] == reg[obj_index(reg, p)]);
            }
        }
        lemma_obj_index(up, o.path);
    } else {
        let x = new_object(o);
        assert forall|p: Seq<char>| true implies obj_index(up, p) == (if obj_index(reg, p) >= 0 {
            obj_index(reg, p)
        } else if p == o.path {
            reg.len() as int
        } else {
            -1
        }) by {
            lemma_obj_index_push(reg, x, p);
        }
        assert forall|i: int, j: int| 0 <= i < j < up.len() implies up[i].path != up[j].path by {
            if j == reg.len() {
                assert(up[i] == reg[i]);
                lemma_obj_index(reg, o.path);
            }
        }
        assert forall|p: Seq<char>| reg_has_format(reg, p) implies reg_has_format(up, p) by {
            lemma_obj_index(reg, p);
            assert(up[obj_index(reg, p)] == reg[obj_index(reg, p)]);
        }
    }
}

/// The object views of a metadata list.
pub open spec fn metas_view(s: Seq<ObjectMetaData>) -> Seq<ObjectMetaView> {
    Seq::new(s.len(), |i: int| s[i]@)
}

/// Applying a concatenation applies the two halves in turn, and the
/// first fatal object of the whole is that of whichever half fails.
proof fn lemma_apply_objects_decompose(st: ScannerView, s: Seq<ObjectMetaView>, t: Seq<ObjectMetaView>)
    ensures
        apply_objects(st, s + t) == (match apply_objects(st, s) {
            Some(st1) => apply_objects(st1, t),
            Option::None => Option::None::<ScannerView>,
        }),
        apply_objects(st, s) is Some ==> first_missing_path(st, s + t) == first_missing_path(
            apply_objects(st, s).unwrap(),
            t,
        ),
        apply_objects(st, s) is None ==> first_missing_path(st, s + t) == first_missing_path(
            st,
            s,
        ),
    decreases s.len(),
{
    if s.len() == 0 {
        assert(s + t =~= t);
    } else {
        assert((s + t)[0] == s[0]);
        match apply_object(st, s[0]) {
            Some(st1) => {
                assert((s + t).drop_first() =~= s.drop_first() + t);
                lemma_apply_objects_decompose(st1, s.drop_first(), t);
            },
            Option::None => {
                assert((s + t).len() > 0);
            },
        }
    }
}

/// Applying objects changes only the active list and the registry.
proof fn lemma_apply_objects_keeps(st: ScannerView, objs: Seq<ObjectMetaView>)
    requires
        apply_objects(st, objs) is Some,
    ensures
        apply_objects(st, objs).unwrap().blocks == st.blocks,
        apply_objects(st, objs).unwrap().next_segment_start == st.next_segment_start,
    decreases objs.len(),
{
    if objs.len() > 0 {
        let st1 = apply_object(st, objs[0]).unwrap();
        lemma_apply_objects_keeps(st1, objs.drop_first());
    }
}

/// Updating the pair at a name's position rewrites that name in the
/// merged map, and no other.
proof fn lemma_props_update(
    m: Map<Seq<char>, PropertyValue>,
    pairs: Seq<(Seq<char>, PropertyValue)>,
    j: int,
    p: (Seq<char>, PropertyValue),
)
    requires
        prop_names_unique(pairs),
        0 <= j < pairs.len(),
        pairs[j].0 == p.0,
    ensures
        merge_props(m, pairs.update(j, p)) == merge_props(m, pairs).insert(p.0, p.1),
        prop_names_unique(pairs.update(j, p)),
    decreases pairs.len(),
{
    let up = pairs.update(j, p);
    if j == pairs.len() - 1 {
        assert(up.drop_last() =~= pairs.drop_last());
        assert(up.last() == p);
        assert(merge_props(m, pairs).insert(p.0, p.1) =~= merge_props(m, pairs.drop_last()).insert(
            p.0,
            p.1,
        ));
    } else {
        assert(up.drop_last() =~= pairs.drop_last().update(j, p));
        assert(pairs.drop_last()[j] == pairs[j]);
        assert(prop_names_unique(pairs.drop_last()));
        lemma_props_update(m, pairs.drop_last(), j, p);
        assert(up.last() == pairs.last());
        let q = pairs.last();
        assert(q.0 != p.0);
        let base = merge_props(m, pairs.drop_last());
        assert(merge_props(m, up) == base.insert(p.0, p.1).insert(q.0, q.1));
        assert(merge_props(m, pairs).insert(p.0, p.1) == base.insert(q.0, q.1).insert(p.0, p.1));
        assert(base.insert(p.0, p.1).insert(q.0, q.1) =~= base.insert(q.0, q.1).insert(p.0, p.1));
    }
}

/// Search goes by paths alone: registries with the same paths give the
/// same positions.
proof fn lemma_obj_index_same_paths(r1: Seq<ObjectView>, r2: Seq<ObjectView>, p: Seq<char>)
    requires
        r1.len() == r2.len(),
        forall|j: int| 0 <= j < r1.len() ==> r1[j].path == r2[j].path,
    ensures
        obj_index(r1, p) == obj_index(r2, p),
    decreases r1.len(),
{
    if r1.len() > 0 {
        assert(r1[0].path == r2[0].path);
        if r1[0].path != p {
            assert(forall|j: int|
                0 <= j < r1.drop_first().len() ==> r1.drop_first()[j].path == r2.drop_first()[
                    j
                ].path);
            lemma_obj_index_same_paths(r1.drop_first(), r2.drop_first(), p);
        }
    }
}

/// The active paths of a scanner, as character sequences.
pub open spec fn paths_view(v: Seq<String>) -> Seq<Seq<char>> {
    Seq::new(v.len(), |i: int| v[i]@)
}

/// The state of an empty scanner.
pub open spec fn empty_scanner() -> ScannerView {
    ScannerView {
        active: Seq::empty(),
        registry: Seq::empty(),
        blocks: Seq::empty(),
        next_segment_start: 0,
    }
}

/// A location points into an existing block, at an existing channel.
pub open spec fn loc_wf(v: ScannerView, loc: DataLocation) -> bool {
    &&& loc.data_block < v.blocks.len()
    &&& loc.channel_index < v.blocks[loc.data_block as int].channels.len()
}

/// Block indices in a location list increase strictly: a channel's
/// locations stand in block-append order, so its time series is the
/// ordered concatenation of its slices.
pub open spec fn locs_increasing(locs: Seq<DataLocation>) -> bool {
    forall|k1: int, k2: int|
        0 <= k1 < k2 < locs.len() ==> locs[k1].data_block < locs[k2].data_block
}

/// The invariants of a scanner state (and of a finished index, whose
/// active list is empty):
///
/// - registry paths are unique, and each entry's property names are too;
/// - no path appears twice in the active list;
/// - every active path has a registry entry with a data layout on
///   record;
/// - block starts increase strictly in file order and stay below the
///   running offset;
/// - every recorded data location points into an existing block, at an
///   existing channel;
/// - every object's locations carry strictly increasing block indices.
pub open spec fn scanner_inv(v: ScannerView) -> bool {
    &&& forall|i: int, j: int|
        0 <= i < j < v.registry.len() ==> v.registry[i].path != v.registry[j].path
    &&& forall|i: int, j: int| 0 <= i < j < v.active.len() ==> v.active[i] != v.active[j]
    &&& forall|i: int| 0 <= i < v.active.len() ==> reg_has_format(v.registry, #[trigger] v.active[i])
    &&& forall|b1: int, b2: int|
        0 <= b1 < b2 < v.blocks.len() ==> v.blocks[b1].start < v.blocks[b2].start
    &&& forall|b: int| 0 <= b < v.blocks.len() ==> #[trigger] v.blocks[b].start <= v.next_segment_start
    &&& forall|i: int, k: int|
        0 <= i < v.registry.len() && 0 <= k < v.registry[i].data_locations.len() ==> loc_wf(
            v,
            #[trigger] v.registry[i].data_locations[k],
        )
    &&& forall|i: int|
        0 <= i < v.registry.len() ==> locs_increasing((#[trigger] v.registry[i]).data_locations)
}

/// Whether a path occurs in a list of paths.
fn path_list_contains(v: &Vec<String>, path: &str) -> (r: bool)
    ensures
        r == paths_view(v@).contains(path@),
{
    let n = v.len();
    let mut i: usize = 0;
    while i < n
        invariant
            n == v@.len(),
            i <= n,
            forall|j: int| 0 <= j < i ==> v@[j]@ != path@,
        decreases n - i,
    {
        if str_eq(v[i].as_str(), path) {
            proof {
                assert(paths_view(v@)[i as int] == path@);
            }
            return true;
        }
        i = i + 1;
    }
    proof {
        assert(forall|j: int| 0 <= j < paths_view(v@).len() ==> paths_view(v@)[j] != path@);
    }
    false
}

/// A stateful scanner that consumes segment metadata in file order and
/// accumulates the index.
pub struct FileScanner {
    active_objects: Vec<String>,
    object_registry: Vec<ObjectData>,
    data_blocks: Vec<DataBlock>,
    next_segment_start: u64,
}

impl View for FileScanner {
    type V = ScannerView;

    closed spec fn view(&self) -> ScannerView {
        ScannerView {
            active: paths_view(self.active_objects@),
            registry: Seq::new(self.object_registry@.len(), |i: int| self.object_registry@[i]@),
            blocks: Seq::new(self.data_blocks@.len(), |i: int| self.data_blocks@[i]@),
            next_segment_start: self.next_segment_start,
        }
    }
}

impl FileScanner {
    /// Well-formedness: the state invariants hold, and each stored
    /// object's property names are unique.
    pub closed spec fn wf(&self) -> bool {
        &&& scanner_inv(self@)
        &&& forall|i: int|
            0 <= i < self.object_registry@.len() ==> (#[trigger] self.object_registry@[i]).props_wf()
    }

    /// A scanner with nothing seen yet.
    pub fn new() -> (s: FileScanner)
        ensures
            s@ == empty_scanner(),
            s.wf(),
    {
        let s = FileScanner {
            active_objects: Vec::new(),
            object_registry: Vec::new(),
            data_blocks: Vec::new(),
            next_segment_start: 0,
        };
        proof {
            assert(s@ =~= empty_scanner());
        }
        s
    }

    /// Whether a path is on the active list.
    fn is_active(&self, path: &str) -> (r: bool)
        ensures
            r == self@.active.contains(path@),
    {
        path_list_contains(&self.active_objects, path)
    }

    /// The registry position of a path, where one exists.
    fn find_object(&self, path: &str) -> (r: Option<usize>)
        ensures
            match r {
                Some(i) => obj_index(self@.registry, path@) == i,
                Option::None => obj_index(self@.registry, path@) == -1,
            },
    {
        let n = self.object_registry.len();
        let mut i: usize = 0;
        while i < n
            invariant
                n == self.object_registry@.len(),
                i <= n,
                forall|j: int| 0 <= j < i ==> self.object_registry@[j].path@ != path@,
            decreases n - i,
        {
            if str_eq(self.object_registry[i].path.as_str(), path) {
                proof {
                    lemma_obj_index(self@.registry, path@);
                    assert(self@.registry[i as int].path == path@);
                    let idx = obj_index(self@.registry, path@);
                    if idx == -1 {
                        assert(self@.registry[i as int].path != path@);
                    } else if idx < i as int {
                        assert(self.object_registry@[idx].path@ != path@);
                        assert(self@.registry[idx].path == path@);
                    } else if idx > i as int {
                        assert(self@.registry[i as int].path != path@);
                    }
                }
                return Some(i);
            }
            i = i + 1;
        }
        proof {
            lemma_obj_index(self@.registry, path@);
            assert(forall|j: int| 0 <= j < self@.registry.len() ==> self@.registry[j].path != path@);
            let idx = obj_index(self@.registry, path@);
            if idx >= 0 {
                assert(self@.registry[idx].path == path@);
            }
        }
        Option::None
    }

    /// Update an object which contains no data, or one whose entry is
    /// already on record: create it if new, else merge its metadata.
    fn update_meta_object(&mut self, object: ObjectMetaData)
        requires
            old(self).wf(),
        ensures
            final(self).wf(),
            final(self)@ == (ScannerView {
                registry: upsert_object(old(self)@.registry, object@),
                ..old(self)@
            }),
    {
        proof {
            lemma_obj_index(self@.registry, object@.path);
            lemma_upsert_object(self@.registry, object@);
        }
        let ghost old_view = self@;
        let ghost target = upsert_object(old_view.registry, object@);
        match self.find_object(object.path.as_str()) {
            Some(j) => {
                let entry = &mut self.object_registry[j];
                entry.update(object);
                proof {
                    assert(self@.registry =~= target);
                    assert(self@ =~= (ScannerView { registry: target, ..old_view }));
                }
            },
            Option::None => {
                let obj_data = ObjectData::from_metadata(object);
                self.object_registry.push(obj_data);
                proof {
                    assert(self@.registry =~= target);
                    assert(self@ =~= (ScannerView { registry: target, ..old_view }));
                }
            },
        }
        proof {
            self.lemma_wf_after_upsert(old_view, object@);
        }
    }

    /// The state invariants survive an upsert that leaves the active
    /// list, blocks and running offset alone.
    proof fn lemma_wf_after_upsert(&self, old_view: ScannerView, o: ObjectMetaView)
        requires
            scanner_inv(old_view),
            forall|i: int|
                0 <= i < self.object_registry@.len() ==> (#[trigger] self.object_registry@[
                    i
                ]).props_wf(),
            self@ == (ScannerView { registry: upsert_object(old_view.registry, o), ..old_view }),
        ensures
            self.wf(),
    {
        let reg = old_view.registry;
        let up = upsert_object(reg, o);
        lemma_obj_index(reg, o.path);
        lemma_upsert_object(reg, o);
        let v = self@;
        assert forall|i: int| 0 <= i < v.active.len() implies reg_has_format(
            v.registry,
            #[trigger] v.active[i],
        ) by {
            assert(reg_has_format(reg, old_view.active[i]));
        }
        assert forall|i: int, k: int|
            0 <= i < v.registry.len() && 0 <= k < v.registry[i].data_locations.len() implies loc_wf(
            v,
            #[trigger] v.registry[i].data_locations[k],
        ) by {
            let i0 = obj_index(reg, o.path);
            if i0 >= 0 && i == i0 {
                assert(v.registry[i].data_locations == reg[i0].data_locations);
                assert(loc_wf(old_view, reg[i0].data_locations[k]));
            } else if i < reg.len() {
                assert(v.registry[i] == reg[i]);
                assert(loc_wf(old_view, reg[i].data_locations[k]));
            } else {
                assert(v.registry[i] == new_object(o));
            }
        }
    }

    /// Activate a data object: add it by path to the active list,
    /// creating or updating its registry entry.
    fn update_or_activate_data_object(&mut self, object: ObjectMetaData)
        requires
            old(self).wf(),
            !(object@.raw_data_index is NoData),
            apply_object(old(self)@, object@) is Some,
        ensures
            final(self).wf(),
            Some(final(self)@) == apply_object(old(self)@, object@),
    {
        let ghost old_view = self@;
        proof {
            lemma_upsert_object(self@.registry, object@);
        }
        if self.is_active(object.path.as_str()) {
            self.update_meta_object(object);
        } else {
            let path = object.path.clone();
            self.update_meta_object(object);
            self.active_objects.push(path);
            proof {
                assert(self@.active =~= old_view.active.push(object@.path));
                assert(self@ =~= (ScannerView {
                    active: old_view.active.push(object@.path),
                    registry: upsert_object(old_view.registry, object@),
                    ..old_view
                }));
                // the new active entry has a layout on record; the rest
                // of the invariants carry over unchanged
                let v = self@;
                assert(reg_has_format(v.registry, object@.path));
                assert forall|i: int| 0 <= i < v.active.len() implies reg_has_format(
                    v.registry,
                    #[trigger] v.active[i],
                ) by {
                    if i < old_view.active.len() {
                        assert(reg_has_format(upsert_object(old_view.registry, object@),
                            old_view.active[i]));
                    }
                }
            }
        }
    }

    /// The channel descriptions of the active objects, in active-list
    /// order.
    fn get_active_raw_data_meta(&self) -> (metas: Vec<RawDataMeta>)
        requires
            self.wf(),
        ensures
            metas@ == active_channels(self@),
    {
        let n = self.active_objects.len();
        let mut metas: Vec<RawDataMeta> = Vec::new();
        let mut i: usize = 0;
        while i < n
            invariant
                self.wf(),
                n == self.active_objects@.len(),
                i <= n,
                metas@ == active_channels(self@).take(i as int),
            decreases n - i,
        {
            proof {
                assert(reg_has_format(self@.registry, self@.active[i as int]));
            }
            let found = self.find_object(self.active_objects[i].as_str());
            match found {
                Some(j) => {
                    proof {
                        lemma_obj_index(self@.registry, self@.active[i as int]);
                        assert(j < self.object_registry@.len());
                    }
                    let fmt = self.object_registry[j].latest_data_format;
                    match fmt {
                        Some(DataFormat::RawData(m)) => {
                            metas.push(m);
                            proof {
                                assert(self@.registry[j as int].latest_data_format == Some(m));
                                assert(active_channels(self@)[i as int] == m);
                                assert(metas@ =~= active_channels(self@).take(i + 1));
                            }
                        },
                        Option::None => {
                            proof {
                                assert(self@.registry[j as int].latest_data_format is None);
                                assert(false);
                            }
                            metas.push(RawDataMeta {
                                data_type: crate::data_types::DataType::Void,
                                number_of_values: 0,
                                total_size_bytes: Option::None,
                            });
                        },
                    }
                },
                Option::None => {
                    proof {
                        assert(false);
                    }
                },
            }
            i = i + 1;
        }
        proof {
            assert(metas@ =~= active_channels(self@));
        }
        metas
    }

    /// Record a freshly appended data block: push it, then append a
    /// location to every active object's list, in active-list order.
    fn insert_data_block(&mut self, block: DataBlock)
        requires
            old(self).wf(),
            block@.channels.len() == old(self)@.active.len(),
            forall|b: int|
                0 <= b < old(self)@.blocks.len() ==> old(self)@.blocks[b].start < block@.start,
            block@.start <= old(self)@.next_segment_start,
        ensures
            final(self).wf(),
            final(self)@ == push_block_view(old(self)@, block@),
    {
        let ghost old_view = self@;
        let ghost target = push_block_view(old_view, block@);
        let data_index = self.data_blocks.len();
        self.data_blocks.push(block);
        proof {
            assert(self@.blocks =~= old_view.blocks.push(block@));
            assert(self@.active == old_view.active);
            assert(self@.registry =~= old_view.registry);
        }
        let n = self.active_objects.len();
        let mut channel_index: usize = 0;
        while channel_index < n
            invariant
                scanner_inv(old_view),
                forall|i: int|
                    0 <= i < self.object_registry@.len() ==> (#[trigger] self.object_registry@[
                        i
                    ]).props_wf(),
                n == self.active_objects@.len(),
                n == old_view.active.len(),
                channel_index <= n,
                data_index == old_view.blocks.len(),
                block@.channels.len() == old_view.active.len(),
                self@.active == old_view.active,
                self@.blocks == old_view.blocks.push(block@),
                self@.next_segment_start == old_view.next_segment_start,
                self@.registry.len() == old_view.registry.len(),
                target == push_block_view(old_view, block@),
                forall|j: int|
                    0 <= j < old_view.registry.len() ==> #[trigger] self@.registry[j] == (
                    if old_view.active.take(channel_index as int).contains(
                        old_view.registry[j].path,
                    ) {
                        target.registry[j]
                    } else {
                        old_view.registry[j]
                    }),
            decreases n - channel_index,
        {
            let ghost path = old_view.active[channel_index as int];
            proof {
                assert(reg_has_format(old_view.registry, path));
                lemma_obj_index(old_view.registry, path);
                assert(forall|j: int|
                    0 <= j < self@.registry.len() ==> #[trigger] self@.registry[j].path
                        == old_view.registry[j].path);
                lemma_obj_index_same_paths(self@.registry, old_view.registry, path);
            }
            let found = self.find_object(self.active_objects[channel_index].as_str());
            match found {
                Some(j) => {
                    let ghost pre = self@;
                    let entry = &mut self.object_registry[j];
                    entry.data_locations.push(
                        DataLocation { data_block: data_index, channel_index },
                    );
                    proof {
                        let ji = j as int;
                        let ci = channel_index as int;
                        // the chosen occurrence of this path is this one
                        assert(old_view.active[ci] == path);
                        let k = old_view.active.index_of(path);
                        assert(old_view.active.contains(path));
                        assert(old_view.active[k] == path);
                        assert(k == ci);
                        assert(old_view.registry[ji].path == path);
                        assert(!old_view.active.take(ci).contains(path)) by {
                            if old_view.active.take(ci).contains(path) {
                                let k2 = choose|k2: int|
                                    0 <= k2 < ci && old_view.active.take(ci)[k2] == path;
                                assert(old_view.active[k2] == path);
                            }
                        }
                        assert(pre.registry[ji] == old_view.registry[ji]);
                        assert(self@.registry =~= pre.registry.update(
                            ji,
                            ObjectView {
                                data_locations: old_view.registry[ji].data_locations.push(
                                    DataLocation {
                                        data_block: data_index,
                                        channel_index,
                                    },
                                ),
                                ..old_view.registry[ji]
                            },
                        ));
                        assert(self@.registry[ji] == target.registry[ji]);
                        assert forall|j2: int|
                            0 <= j2 < old_view.registry.len() implies #[trigger] self@.registry[j2]
                            == (if old_view.active.take(ci + 1).contains(
                            old_view.registry[j2].path,
                        ) {
                            target.registry[j2]
                        } else {
                            old_view.registry[j2]
                        }) by {
                            if j2 != ji {
                                assert(old_view.registry[j2].path != path);
                                assert(old_view.active.take(ci + 1).contains(
                                    old_view.registry[j2].path,
                                ) == old_view.active.take(ci).contains(
                                    old_view.registry[j2].path,
                                )) by {
                                    let t1 = old_view.active.take(ci + 1);
                                    let t0 = old_view.active.take(ci);
                                    if t1.contains(old_view.registry[j2].path) {
                                        let k3 = choose|k3: int|
                                            0 <= k3 < t1.len() && t1[k3] == old_view.registry[
                                                j2
                                            ].path;
                                        assert(old_view.active[k3] == old_view.registry[j2].path);
                                        assert(k3 != ci);
                                        assert(t0[k3] == old_view.registry[j2].path);
                                    } else if t0.contains(old_view.registry[j2].path) {
                                        let k3 = choose|k3: int|
                                            0 <= k3 < t0.len() && t0[k3] == old_view.registry[
                                                j2
                                            ].path;
                                        assert(t1[k3] == old_view.registry[j2].path);
                                    }
                                }
                            } else {
                                assert(old_view.active.take(ci + 1)[ci] == path);
                                assert(old_view.active.take(ci + 1).contains(path));
                            }
                        }
                    }
                },
                Option::None => {
                    proof {
                        assert(false);
                    }
                },
            }
            channel_index = channel_index + 1;
        }
        proof {
            assert forall|j: int| 0 <= j < old_view.registry.len() implies old_view.active.take(
                n as int,
            ).contains(old_view.registry[j].path) == old_view.active.contains(
                old_view.registry[j].path,
            ) by {
                assert(old_view.active.take(n as int) =~= old_view.active);
            }
            assert(self@.registry =~= target.registry);
            assert(self@ =~= target);
            // invariants of the new state
            let v = self@;
            assert forall|i: int| 0 <= i < v.active.len() implies reg_has_format(
                v.registry,
                #[trigger] v.active[i],
            ) by {
                assert(reg_has_format(old_view.registry, old_view.active[i]));
                lemma_obj_index(old_view.registry, old_view.active[i]);
                lemma_obj_index_same_paths(v.registry, old_view.registry, old_view.active[i]);
            }
            assert forall|i: int, k: int|
                0 <= i < v.registry.len() && 0 <= k < v.registry[i].data_locations.len() implies
                loc_wf(v, #[trigger] v.registry[i].data_locations[k]) by {
                if old_view.active.contains(old_view.registry[i].path) {
                    if k < old_view.registry[i].data_locations.len() {
                        assert(v.registry[i].data_locations[k] == old_view.registry[
                            i
                        ].data_locations[k]);
                        assert(loc_wf(old_view, old_view.registry[i].data_locations[k]));
                        assert(v.blocks[old_view.registry[i].data_locations[k].data_block as int]
                            == old_view.blocks[old_view.registry[i].data_locations[
                                k
                            ].data_block as int]);
                    } else {
                        let loc = v.registry[i].data_locations[k];
                        assert(loc.data_block == old_view.blocks.len());
                        assert(v.blocks[loc.data_block as int] == block@);
                        let p2 = old_view.registry[i].path;
                        let k4 = old_view.active.index_of(p2);
                        assert(old_view.active[k4] == p2);
                        assert(loc.channel_index == k4);
                    }
                } else {
                    assert(v.registry[i] == old_view.registry[i]);
                    assert(loc_wf(old_view, old_view.registry[i].data_locations[k]));
                    assert(v.blocks[old_view.registry[i].data_locations[k].data_block as int]
                        == old_view.blocks[old_view.registry[i].data_locations[
                            k
                        ].data_block as int]);
                }
            }
        }
    }

    /// Consumes the active list, making every object inactive.
    fn deactivate_all_objects(&mut self)
        ensures
            final(self)@ == (ScannerView { active: Seq::empty(), ..old(self)@ }),
            old(self).wf() ==> final(self).wf(),
    {
        self.active_objects.clear();
        proof {
            assert(final(self)@ =~= (ScannerView { active: Seq::empty(), ..old(self)@ }));
        }
    }

    /// First pass over a segment: decide, without touching any state,
    /// whether every object can be applied, and name the first that
    /// cannot.
    fn validate_segment(&self, segment: &SegmentMetaData) -> (r: Result<(), TdmsError>)
        requires
            self.wf(),
        ensures
            match r {
                Ok(()) => apply_objects(seg_start_state(self@, segment@), segment@.objects)
                    is Some,
                Err(e) => {
                    &&& apply_objects(seg_start_state(self@, segment@), segment@.objects) is None
                    &&& match e {
                        TdmsError::MissingPreviousIndex(p) => p@ == first_missing_path(
                            seg_start_state(self@, segment@),
                            segment@.objects,
                        ),
                        _ => false,
                    }
                },
            },
    {
        let ghost st0 = seg_start_state(self@, segment@);
        let ghost objs = segment@.objects;
        let mut sim: Vec<String> = Vec::new();
        if !segment.toc.contains_new_object_list {
            let n = self.active_objects.len();
            let mut i: usize = 0;
            while i < n
                invariant
                    n == self.active_objects@.len(),
                    i <= n,
                    sim@.len() == i,
                    forall|k: int| 0 <= k < i ==> sim@[k]@ == self.active_objects@[k]@,
                decreases n - i,
            {
                sim.push(self.active_objects[i].clone());
                i = i + 1;
            }
        }
        proof {
            assert(paths_view(sim@) =~= st0.active);
        }
        let ghost mut stk = st0;
        let m = segment.objects.len();
        let mut k: usize = 0;
        while k < m
            invariant
                self.wf(),
                m == segment.objects@.len(),
                k <= m,
                st0 == seg_start_state(self@, segment@),
                objs == segment@.objects,
                objs.len() == m,
                apply_objects(st0, objs.take(k as int)) == Some(stk),
                paths_view(sim@) == stk.active,
                formats_relative(self@.registry, stk),
                forall|i: int, j: int|
                    0 <= i < j < stk.registry.len() ==> stk.registry[i].path != stk.registry[
                        j
                    ].path,
            decreases m - k,
        {
            let obj = &segment.objects[k];
            proof {
                assert(objs[k as int] == obj@);
            }
            let ghost path = obj@.path;
            let mut fatal = false;
            match &obj.raw_data_index {
                RawDataIndex::NoData => {},
                RawDataIndex::RawData(_) => {
                    let already = path_list_contains(&sim, obj.path.as_str());
                    if !already {
                        sim.push(obj.path.clone());
                        proof {
                            assert(paths_view(sim@) =~= stk.active.push(path));
                        }
                    }
                },
                RawDataIndex::MatchPrevious => {
                    let already = path_list_contains(&sim, obj.path.as_str());
                    if !already {
                        let has_fmt = match self.find_object(obj.path.as_str()) {
                            Some(j) => {
                                proof {
                                    lemma_obj_index(self@.registry, path);
                                }
                                self.object_registry[j].latest_data_format.is_some()
                            },
                            Option::None => false,
                        };
                        if has_fmt {
                            sim.push(obj.path.clone());
                            proof {
                                assert(reg_has_format(self@.registry, path));
                                assert(reg_has_format(stk.registry, path));
                                assert(paths_view(sim@) =~= stk.active.push(path));
                            }
                        } else {
                            fatal = true;
                            proof {
                                assert(!reg_has_format(self@.registry, path));
                                assert(!stk.active.contains(path));
                                assert(!reg_has_format(stk.registry, path));
                                assert(apply_object(stk, obj@) is None);
                                assert(objs =~= objs.take(k as int) + objs.skip(k as int));
                                lemma_apply_objects_decompose(
                                    st0,
                                    objs.take(k as int),
                                    objs.skip(k as int),
                                );
                                assert(objs.skip(k as int)[0] == objs[k as int]);
                                assert(apply_objects(stk, objs.skip(k as int)) is None);
                                assert(first_missing_path(stk, objs.skip(k as int)) == path);
                            }
                        }
                    }
                },
            }
            if fatal {
                return Err(TdmsError::MissingPreviousIndex(obj.path.clone()));
            }
            proof {
                assert(apply_object(stk, obj@) is Some);
                lemma_apply_object_formats(self@.registry, stk, obj@);
                let st_next = apply_object(stk, obj@).unwrap();
                assert(paths_view(sim@) =~= st_next.active);
                assert(objs.take(k + 1) =~= objs.take(k as int) + seq![obj@]);
                lemma_apply_objects_decompose(st0, objs.take(k as int), seq![obj@]);
                assert(seq![obj@].drop_first() =~= Seq::<ObjectMetaView>::empty());
                assert(apply_objects(st_next, Seq::<ObjectMetaView>::empty()) == Some(st_next));
                assert(apply_objects(stk, seq![obj@]) == Some(st_next));
                stk = st_next;
            }
            k = k + 1;
        }
        proof {
            assert(objs.take(m as int) =~= objs);
            assert(apply_objects(st0, objs) == Some(stk));
        }
        Ok(())
    }

    /// Consume one segment's metadata, applying the format's
    /// inheritance rules: clear the active list if a new one is
    /// declared, apply each object in order, materialize a data block
    /// when raw data is present, and advance the running offset.
    ///
    /// A fatal segment (a match-previous index for an object with no
    /// layout on record) leaves the scanner exactly as it was.
    pub fn add_segment_to_index(&mut self, segment: SegmentMetaData) -> (r: Result<
        (),
        TdmsError,
    >)
        requires
            old(self).wf(),
            segment_fits(old(self)@, segment@),
        ensures
            final(self).wf(),
            match r {
                Ok(()) => Some(final(self)@) == spec_add_segment(old(self)@, segment@),
                Err(e) => {
                    &&& final(self)@ == old(self)@
                    &&& spec_add_segment(old(self)@, segment@) is None
                    &&& match e {
                        TdmsError::MissingPreviousIndex(p) => p@ == first_missing_path(
                            seg_start_state(old(self)@, segment@),
                            segment@.objects,
                        ),
                        _ => false,
                    }
                },
            },
    {
        match self.validate_segment(&segment) {
            Err(e) => {
                return Err(e);
            },
            Ok(()) => {},
        }
        let ghost orig = self@;
        let ghost seg_view = segment@;
        if segment.toc.contains_new_object_list {
            self.deactivate_all_objects();
        }
        let ghost st0 = self@;
        proof {
            assert(st0 =~= seg_start_state(orig, seg_view));
        }
        let mut objects = segment.objects;
        let n0 = objects.len();
        let ghost full = metas_view(objects@);
        proof {
            assert(full =~= seg_view.objects);
            assert(full.take(0) =~= Seq::<ObjectMetaView>::empty());
        }
        let mut processed: usize = 0;
        let ghost total = n0 as int;
        while objects.len() > 0
            invariant
                self.wf(),
                full.len() == total,
                total <= usize::MAX,
                objects@.len() + processed == total,
                metas_view(objects@) =~= full.skip(processed as int),
                apply_objects(st0, full.take(processed as int)) == Some(self@),
                apply_objects(st0, full) is Some,
            decreases objects@.len(),
        {
            let ghost k = processed as int;
            let ghost before = objects@;
            let obj = objects.remove(0);
            proof {
                assert(metas_view(before)[0] == obj@);
                assert(full.skip(k)[0] == obj@);
                assert(full[k] == obj@);
                assert forall|mm: int| 0 <= mm < objects@.len() implies metas_view(objects@)[mm]
                    == full.skip(k + 1)[mm] by {
                    assert(metas_view(objects@)[mm] == before[mm + 1]@);
                    assert(metas_view(before)[mm + 1] == full.skip(k)[mm + 1]);
                }
                assert(metas_view(objects@) =~= full.skip(k + 1));
                // the next object applies: the tail of the fold is live
                assert(full =~= full.take(k) + full.skip(k));
                lemma_apply_objects_decompose(st0, full.take(k), full.skip(k));
                assert(apply_objects(self@, full.skip(k)) is Some);
                assert(apply_object(self@, obj@) is Some);
            }
            let ghost pre = self@;
            match &obj.raw_data_index {
                RawDataIndex::NoData => {
                    self.update_meta_object(obj);
                    proof {
                        assert(Some(self@) == apply_object(pre, full[k]));
                    }
                },
                _ => {
                    self.update_or_activate_data_object(obj);
                },
            }
            proof {
                assert(Some(self@) == apply_object(pre, full[k]));
                assert(full.take(k + 1) =~= full.take(k) + seq![full[k]]);
                lemma_apply_objects_decompose(st0, full.take(k), seq![full[k]]);
                assert(seq![full[k]].drop_first() =~= Seq::<ObjectMetaView>::empty());
                assert(apply_objects(self@, Seq::<ObjectMetaView>::empty()) == Some(self@));
                assert(apply_objects(pre, seq![full[k]]) == Some(self@));
                assert(apply_objects(st0, full.take(k + 1)) == Some(self@));
            }
            processed = processed + 1;
        }
        proof {
            assert(full.take(total) =~= full);
            assert(apply_objects(st0, full) == Some(self@));
            lemma_apply_objects_keeps(st0, full);
            assert(self@.next_segment_start == orig.next_segment_start);
            assert(self@.blocks == orig.blocks);
        }
        let ghost st1 = self@;
        if segment.toc.contains_raw_data {
            let channels = self.get_active_raw_data_meta();
            let block = block_from_parts(
                segment.toc,
                segment.next_segment_offset,
                segment.raw_data_offset,
                self.next_segment_start,
                channels,
            );
            self.next_segment_start = self.next_segment_start + segment.next_segment_offset
                + LEAD_IN_BYTES;
            proof {
                assert(self@ =~= (ScannerView {
                    next_segment_start: self.next_segment_start,
                    ..st1
                }));
            }
            let ghost st1b = self@;
            proof {
                assert(block@.start > st1.next_segment_start);
                assert(forall|b: int|
                    0 <= b < st1b.blocks.len() ==> st1b.blocks[b].start <= st1.next_segment_start);
                assert(block@.start <= st1b.next_segment_start);
                assert(block@.channels =~= active_channels(st1b));
                assert(active_channels(st1b) =~= active_channels(st1));
            }
            self.insert_data_block(block);
            proof {
                let spec_result = spec_add_segment(orig, seg_view).unwrap();
                assert(push_block_view(st1b, block@).registry =~= add_block(
                    st1,
                    seg_view.toc,
                    seg_view.next_segment_offset,
                    seg_view.raw_data_offset,
                ).registry);
                assert(self@ =~= spec_result);
            }
        } else {
            self.next_segment_start = self.next_segment_start + segment.next_segment_offset
                + LEAD_IN_BYTES;
            proof {
                assert(self@ =~= spec_add_segment(orig, seg_view).unwrap());
                // the advanced offset keeps every block below it
                let v = self@;
                assert forall|b: int| 0 <= b < v.blocks.len() implies #[trigger] v.blocks[b].start
                    <= v.next_segment_start by {
                    assert(st1.blocks[b].start <= st1.next_segment_start);
                }
            }
        }
        Ok(())
    }
}

/// Whether a candidate write matches the live layout exactly: the same
/// paths in the same order, each with exactly the candidate description
/// as its latest layout.
pub open spec fn live_matches(st: ScannerView, paths: Seq<Seq<char>>, meta: RawDataMeta) -> bool {
    &&& st.active == paths
    &&& forall|i: int|
        0 <= i < st.active.len() ==> st.registry[obj_index(st.registry, #[trigger] st.active[i])].latest_data_format
            == Some(meta)
}

impl FileScanner {
    /// Whether writing the given channels, all with one description,
    /// would lay out data exactly as the live state already does.
    pub fn matches_live(&self, paths: &Vec<String>, meta: &RawDataMeta) -> (r: bool)
        requires
            self.wf(),
        ensures
            r == live_matches(self@, paths_view(paths@), *meta),
    {
        let n = self.active_objects.len();
        if paths.len() != n {
            proof {
                assert(self@.active.len() != paths_view(paths@).len());
            }
            return false;
        }
        let mut i: usize = 0;
        while i < n
            invariant
                self.wf(),
                n == self.active_objects@.len(),
                n == paths@.len(),
                i <= n,
                forall|j: int|
                    0 <= j < i ==> self@.active[j] == paths_view(paths@)[j] && self@.registry[
                        obj_index(self@.registry, #[trigger] self@.active[j])
                    ].latest_data_format == Some(*meta),
            decreases n - i,
        {
            if !str_eq(self.active_objects[i].as_str(), paths[i].as_str()) {
                proof {
                    assert(self@.active[i as int] != paths_view(paths@)[i as int]);
                }
                return false;
            }
            proof {
                assert(reg_has_format(self@.registry, self@.active[i as int]));
            }
            let same = match self.find_object(self.active_objects[i].as_str()) {
                Some(j) => {
                    proof {
                        lemma_obj_index(self@.registry, self@.active[i as int]);
                    }
                    let fmt = self.object_registry[j].latest_data_format;
                    match fmt {
                        Some(DataFormat::RawData(m)) => crate::meta_data::raw_data_meta_eq(
                            &m,
                            meta,
                        ),
                        Option::None => false,
                    }
                },
                Option::None => {
                    proof {
                        assert(false);
                    }
                    false
                },
            };
            if !same {
                proof {
                    assert(self@.registry[obj_index(self@.registry, self@.active[i as int])].latest_data_format
                        != Some(*meta));
                }
                return false;
            }
            i = i + 1;
        }
        proof {
            assert(self@.active =~= paths_view(paths@));
        }
        true
    }

    /// The absolute byte offset at which the next segment will start.
    pub fn next_segment_position(&self) -> (r: u64)
        ensures
            r == self@.next_segment_start,
    {
        self.next_segment_start
    }

    /// Finalize: drop the active list and hand out the accumulated
    /// index.
    pub fn into_index(self) -> (ix: Index)
        requires
            self.wf(),
        ensures
            ix.wf(),
            ix@.objects == self@.registry,
            ix@.blocks == self@.blocks,
    {
        let ghost orig = self@;
        let FileScanner { active_objects: mut rest, object_registry, data_blocks, next_segment_start: _ }
            = self;
        rest.clear();
        let ix = Index { objects: object_registry, data_blocks };
        proof {
            assert(ix@.objects =~= orig.registry);
            assert(ix@.blocks =~= orig.blocks);
        }
        ix
    }
}

/// The finished, read-only index of a file: the object registry and the
/// data blocks in file order.
pub struct Index {
    objects: Vec<ObjectData>,
    data_blocks: Vec<DataBlock>,
}

/// The specification-level image of an index.
#[verifier::ext_equal]
pub struct IndexView {
    pub objects: Seq<ObjectView>,
    pub blocks: Seq<DataBlockView>,
}

impl View for Index {
    type V = IndexView;

    closed spec fn view(&self) -> IndexView {
        IndexView {
            objects: Seq::new(self.objects@.len(), |i: int| self.objects@[i]@),
            blocks: Seq::new(self.data_blocks@.len(), |i: int| self.data_blocks@[i]@),
        }
    }
}

impl Index {
    /// The invariants an index carries over from its scanner: unique
    /// paths and property names, strictly increasing block starts,
    /// data locations that point into existing blocks, and per-channel
    /// locations in strictly increasing block order.
    pub closed spec fn wf(&self) -> bool {
        &&& forall|i: int, j: int|
            0 <= i < j < self@.objects.len() ==> self@.objects[i].path != self@.objects[j].path
        &&& forall|i: int|
            0 <= i < self.objects@.len() ==> (#[trigger] self.objects@[i]).props_wf()
        &&& forall|b1: int, b2: int|
            0 <= b1 < b2 < self@.blocks.len() ==> self@.blocks[b1].start < self@.blocks[b2].start
        &&& forall|i: int, k: int|
            0 <= i < self@.objects.len() && 0 <= k < self@.objects[i].data_locations.len()
                ==> (#[trigger] self@.objects[i].data_locations[k]).data_block
                < self@.blocks.len() && self@.objects[i].data_locations[k].channel_index < self@.blocks[
                self@.objects[i].data_locations[k].data_block as int
            ].channels.len()
        &&& forall|i: int|
            0 <= i < self@.objects.len() ==> locs_increasing(
                (#[trigger] self@.objects[i]).data_locations,
            )
    }

    /// The registry position of a path, where one exists.
    fn find_object(&self, path: &str) -> (r: Option<usize>)
        ensures
            match r {
                Some(i) => obj_index(self@.objects, path@) == i && i < self.objects@.len(),
                Option::None => obj_index(self@.objects, path@) == -1,
            },
    {
        let n = self.objects.len();
        let mut i: usize = 0;
        while i < n
            invariant
                n == self.objects@.len(),
                i <= n,
                forall|j: int| 0 <= j < i ==> self.objects@[j].path@ != path@,
            decreases n - i,
        {
            if str_eq(self.objects[i].path.as_str(), path) {
                proof {
                    lemma_obj_index(self@.objects, path@);
                    assert(self@.objects[i as int].path == path@);
                    let idx = obj_index(self@.objects, path@);
                    if idx == -1 {
                        assert(self@.objects[i as int].path != path@);
                    } else if idx < i as int {
                        assert(self.objects@[idx].path@ != path@);
                        assert(self@.objects[idx].path == path@);
                    } else if idx > i as int {
                        assert(self@.objects[i as int].path != path@);
                    }
                }
                return Some(i);
            }
            i = i + 1;
        }
        proof {
            lemma_obj_index(self@.objects, path@);
            assert(forall|j: int| 0 <= j < self@.objects.len() ==> self@.objects[j].path != path@);
            let idx = obj_index(self@.objects, path@);
            if idx >= 0 {
                assert(self@.objects[idx].path == path@);
            }
        }
        Option::None
    }

    /// All properties of an object, as stored: every pair of the
    /// object's property map, each name once, in first-seen order.
    /// `None` when the index holds no object at the path.
    pub fn get_object_properties(&self, path: &str) -> (r: Option<
        Vec<(&String, &PropertyValue)>,
    >)
        requires
            self.wf(),
        ensures
            match r {
                Some(v) => {
                    let entry = self@.objects[obj_index(self@.objects, path@)];
                    &&& reg_has(self@.objects, path@)
                    &&& v@.len() == entry.properties.dom().len()
                    &&& forall|k: int|
                        0 <= k < v@.len() ==> entry.properties.dom().contains(
                            (#[trigger] v@[k]).0@,
                        ) && entry.properties[v@[k].0@] == *v@[k].1
                    &&& forall|k1: int, k2: int|
                        0 <= k1 < k2 < v@.len() ==> v@[k1].0@ != v@[k2].0@
                },
                Option::None => !reg_has(self@.objects, path@),
            },
    {
        match self.find_object(path) {
            Option::None => Option::None,
            Some(j) => {
                let entry = &self.objects[j];
                let n = entry.properties.len();
                let mut out: Vec<(&String, &PropertyValue)> = Vec::new();
                let mut k: usize = 0;
                while k < n
                    invariant
                        n == entry.properties@.len(),
                        k <= n,
                        entry.props_wf(),
                        out@.len() == k,
                        forall|k2: int|
                            0 <= k2 < k ==> (#[trigger] out@[k2]).0@ == entry.prop_pairs()[k2].0
                                && *out@[k2].1 == entry.prop_pairs()[k2].1,
                    decreases n - k,
                {
                    let pair = &entry.properties[k];
                    out.push((&pair.0, &pair.1));
                    k = k + 1;
                }
                proof {
                    let pairs = entry.prop_pairs();
                    let m = props_of_pairs(pairs);
                    assert(self@.objects[j as int] == entry@);
                    assert forall|k2: int| 0 <= k2 < out@.len() implies m.dom().contains(
                        (#[trigger] out@[k2]).0@,
                    ) && m[out@[k2].0@] == *out@[k2].1 by {
                        assert(forall|j2: int|
                            k2 < j2 < pairs.len() ==> pairs[j2].0 != pairs[k2].0);
                        lemma_merge_props_last_wins(Map::empty(), pairs, k2);
                    }
                    lemma_props_dom_len(pairs);
                }
                Some(out)
            },
        }
    }

    /// One property of an object: `Ok(None)` when the object exists but
    /// the property does not, the missing-object error when the object
    /// itself does not.
    pub fn get_object_property(&self, path: &str, property: &str) -> (r: Result<
        Option<&PropertyValue>,
        TdmsError,
    >)
        requires
            self.wf(),
        ensures
            match r {
                Ok(opt) => {
                    let entry = self@.objects[obj_index(self@.objects, path@)];
                    &&& reg_has(self@.objects, path@)
                    &&& match opt {
                        Some(v) => entry.properties.dom().contains(property@)
                            && entry.properties[property@] == *v,
                        Option::None => !entry.properties.dom().contains(property@),
                    }
                },
                Err(e) => !reg_has(self@.objects, path@) && match e {
                    TdmsError::MissingObject(p) => p@ == path@,
                    _ => false,
                },
            },
    {
        match self.find_object(path) {
            Option::None => Err(TdmsError::MissingObject(path.to_owned())),
            Some(j) => {
                let entry = &self.objects[j];
                proof {
                    assert(self@.objects[j as int] == entry@);
                }
                match find_prop(&entry.properties, property) {
                    Some(k) => {
                        proof {
                            let pairs = entry.prop_pairs();
                            assert(pairs[k as int].0 == property@);
                            assert(forall|j2: int|
                                k < j2 < pairs.len() ==> pairs[j2].0 != pairs[k as int].0);
                            lemma_merge_props_last_wins(Map::empty(), pairs, k as int);
                        }
                        let pair = &entry.properties[k];
                        Ok(Some(&pair.1))
                    },
                    Option::None => {
                        proof {
                            let pairs = entry.prop_pairs();
                            assert(forall|k2: int|
                                0 <= k2 < pairs.len() ==> pairs[k2].0 != property@);
                            lemma_merge_props_untouched(Map::empty(), pairs, property@);
                        }
                        Ok(Option::None)
                    },
                }
            },
        }
    }

    /// The ordered data locations of a channel, or `None` for a path
    /// the index does not hold: the locations stand in block-append
    /// order, with strictly increasing block indices.
    pub fn get_channel_data_positions(&self, path: &str) -> (r: Option<&[DataLocation]>)
        requires
            self.wf(),
        ensures
            match r {
                Some(s) => reg_has(self@.objects, path@) && s@ == self@.objects[obj_index(
                    self@.objects,
                    path@,
                )].data_locations && locs_increasing(s@),
                Option::None => !reg_has(self@.objects, path@),
            },
    {
        match self.find_object(path) {
            Option::None => Option::None,
            Some(j) => {
                let entry = &self.objects[j];
                proof {
                    assert(self@.objects[j as int] == entry@);
                }
                Some(entry.data_locations.as_slice())
            },
        }
    }

    /// The data block at a file-order position, or `None` past the end.
    pub fn get_data_block(&self, index: usize) -> (r: Option<&DataBlock>)
        ensures
            match r {
                Some(b) => index < self@.blocks.len() && b@ == self@.blocks[index as int],
                Option::None => index >= self@.blocks.len(),
            },
    {
        if index < self.data_blocks.len() {
            Some(&self.data_blocks[index])
        } else {
            Option::None
        }
    }
}

/// A unique-name pair list puts exactly its names in the merged map's
/// domain, so the two have one size.
proof fn lemma_props_dom_len(pairs: Seq<(Seq<char>, PropertyValue)>)
    requires
        prop_names_unique(pairs),
    ensures
        props_of_pairs(pairs).dom().len() == pairs.len(),
        props_of_pairs(pairs).dom().finite(),
    decreases pairs.len(),
{
    if pairs.len() == 0 {
        assert(props_of_pairs(pairs).dom() =~= Set::<Seq<char>>::empty());
    } else {
        assert(prop_names_unique(pairs.drop_last()));
        lemma_props_dom_len(pairs.drop_last());
        let prev = merge_props(Map::empty(), pairs.drop_last());
        lemma_merge_props_dom(Map::empty(), pairs.drop_last(), pairs.last().0);
        assert(!prev.dom().contains(pairs.last().0)) by {
            if exists|i: int| 0 <= i < pairs.drop_last().len() && pairs.drop_last()[i].0
                == pairs.last().0 {
                let i = choose|i: int|
                    0 <= i < pairs.drop_last().len() && pairs.drop_last()[i].0 == pairs.last().0;
                assert(pairs[i].0 == pairs.last().0);
            }
        }
        assert(props_of_pairs(pairs).dom() =~= prev.dom().insert(pairs.last().0));
        vstd::set::axiom_set_insert_finite(prev.dom(), pairs.last().0);
        vstd::set::axiom_set_insert_len(prev.dom(), pairs.last().0);
    }
}

/// Index monotonicity: a block later in the file starts at a strictly
/// larger offset.
pub proof fn lemma_block_starts_monotonic(ix: &Index, b1: int, b2: int)
    requires
        ix.wf(),
        0 <= b1 < b2 < ix@.blocks.len(),
    ensures
        ix@.blocks[b1].start < ix@.blocks[b2].start,
{
}

/// Active-list uniqueness: no path appears twice in a scanner's active
/// list.
pub proof fn lemma_active_list_unique(s: &FileScanner, i: int, j: int)
    requires
        s.wf(),
        0 <= i < j < s@.active.len(),
    ensures
        s@.active[i] != s@.active[j],
{
}

/// An object update merges properties last-write-wins, name by name:
/// each name takes the last value the segment's metadata pairs with
/// it, and every other name keeps its previous standing.
pub proof fn lemma_updated_object_properties(e: ObjectView, o: ObjectMetaView, name: Seq<char>)
    ensures
        last_prop_index(o.properties, name) >= 0 ==> updated_object(e, o).properties.dom().contains(
            name,
        ) && updated_object(e, o).properties[name] == o.properties[last_prop_index(
            o.properties,
            name,
        )].1,
        last_prop_index(o.properties, name) == -1 ==> updated_object(
            e,
            o,
        ).properties.dom().contains(name) == e.properties.dom().contains(name) && (
        e.properties.dom().contains(name) ==> updated_object(e, o).properties[name]
            == e.properties[name]),
{
    lemma_merge_props_characterization(e.properties, o.properties, name);
}

/// Applying objects only ever appends to the active list, and every
/// appended path is new: it was not active before.
proof fn lemma_apply_objects_extends_active(st: ScannerView, objs: Seq<ObjectMetaView>)
    requires
        apply_objects(st, objs) is Some,
    ensures
        apply_objects(st, objs).unwrap().active.len() >= st.active.len(),
        forall|i: int|
            0 <= i < st.active.len() ==> #[trigger] apply_objects(st, objs).unwrap().active[i]
                == st.active[i],
        forall|k: int|
            st.active.len() <= k < apply_objects(st, objs).unwrap().active.len()
                ==> !st.active.contains(#[trigger] apply_objects(st, objs).unwrap().active[k]),
    decreases objs.len(),
{
    if objs.len() > 0 {
        let st1 = apply_object(st, objs[0]).unwrap();
        assert(forall|i: int|
            0 <= i < st.active.len() ==> #[trigger] st1.active[i] == st.active[i]);
        lemma_apply_objects_extends_active(st1, objs.drop_first());
        let fin = apply_objects(st, objs).unwrap();
        assert forall|k: int| st.active.len() <= k < fin.active.len() implies !st.active.contains(
            #[trigger] fin.active[k],
        ) by {
            if k < st1.active.len() {
                // the one path this step may have pushed was not active
                assert(fin.active[k] == st1.active[k]);
                assert(k == st.active.len());
                assert(st1.active == st.active.push(objs[0].path));
                assert(!st.active.contains(st1.active[k]));
            } else {
                // a later step pushed it, so it was not in the larger
                // list either, whose front is this one
                assert(!st1.active.contains(fin.active[k]));
                if st.active.contains(fin.active[k]) {
                    let w = choose|w: int|
                        0 <= w < st.active.len() && st.active[w] == fin.active[k];
                    assert(st1.active[w] == fin.active[k]);
                }
            }
        }
    }
}

/// A path once active stays active while objects apply.
proof fn lemma_apply_objects_keeps_contains(
    st: ScannerView,
    objs: Seq<ObjectMetaView>,
    p: Seq<char>,
)
    requires
        apply_objects(st, objs) is Some,
        st.active.contains(p),
    ensures
        apply_objects(st, objs).unwrap().active.contains(p),
{
    lemma_apply_objects_extends_active(st, objs);
    let w = choose|w: int| 0 <= w < st.active.len() && st.active[w] == p;
    assert(apply_objects(st, objs).unwrap().active[w] == p);
}

/// An object that carries data ends the segment on the active list.
proof fn lemma_data_object_becomes_active(st: ScannerView, objs: Seq<ObjectMetaView>, j: int)
    requires
        apply_objects(st, objs) is Some,
        0 <= j < objs.len(),
        !(objs[j].raw_data_index is NoData),
    ensures
        apply_objects(st, objs).unwrap().active.contains(objs[j].path),
    decreases objs.len(),
{
    let st1 = apply_object(st, objs[0]).unwrap();
    if j == 0 {
        if st.active.contains(objs[0].path) {
            assert(st1.active.contains(objs[0].path));
        } else {
            assert(st1.active == st.active.push(objs[0].path));
            assert(st1.active[st.active.len() as int] == objs[0].path);
            assert(st1.active.contains(objs[0].path));
        }
        lemma_apply_objects_keeps_contains(st1, objs.drop_first(), objs[0].path);
    } else {
        lemma_data_object_becomes_active(st1, objs.drop_first(), j - 1);
        assert(objs.drop_first()[j - 1] == objs[j]);
    }
}

/// Applying objects that never name a path leaves its registry entry
/// exactly as it was, at a stable position, with paths still unique.
proof fn lemma_apply_objects_keep_entry(st: ScannerView, objs: Seq<ObjectMetaView>, p: Seq<char>)
    requires
        forall|i: int, j: int|
            0 <= i < j < st.registry.len() ==> st.registry[i].path != st.registry[j].path,
        apply_objects(st, objs) is Some,
        forall|j: int| 0 <= j < objs.len() ==> (#[trigger] objs[j]).path != p,
    ensures
        forall|i: int, j: int|
            0 <= i < j < apply_objects(st, objs).unwrap().registry.len() ==> apply_objects(
                st,
                objs,
            ).unwrap().registry[i].path != apply_objects(st, objs).unwrap().registry[j].path,
        obj_index(apply_objects(st, objs).unwrap().registry, p) == obj_index(st.registry, p),
        obj_index(st.registry, p) >= 0 ==> apply_objects(st, objs).unwrap().registry[obj_index(
            st.registry,
            p,
        )] == st.registry[obj_index(st.registry, p)],
    decreases objs.len(),
{
    if objs.len() > 0 {
        let st1 = apply_object(st, objs[0]).unwrap();
        lemma_upsert_object(st.registry, objs[0]);
        assert(st1.registry == upsert_object(st.registry, objs[0]));
        if obj_index(st.registry, p) >= 0 {
            lemma_obj_index(st.registry, p);
            assert(st.registry[obj_index(st.registry, p)].path == p);
            assert(st1.registry[obj_index(st.registry, p)] == st.registry[obj_index(
                st.registry,
                p,
            )]);
        }
        assert(forall|j: int|
            0 <= j < objs.drop_first().len() ==> (#[trigger] objs.drop_first()[j]).path != p);
        lemma_apply_objects_keep_entry(st1, objs.drop_first(), p);
    }
}

/// Every path on the active list after a fold either was active at
/// its start or is named by one of the applied objects.
proof fn lemma_active_from_objects(st: ScannerView, objs: Seq<ObjectMetaView>, k: int)
    requires
        apply_objects(st, objs) is Some,
        0 <= k < apply_objects(st, objs).unwrap().active.len(),
    ensures
        k < st.active.len() || exists|j: int|
            0 <= j < objs.len() && (#[trigger] objs[j]).path == apply_objects(
                st,
                objs,
            ).unwrap().active[k],
    decreases objs.len(),
{
    if objs.len() > 0 {
        let st1 = apply_object(st, objs[0]).unwrap();
        lemma_active_from_objects(st1, objs.drop_first(), k);
        if k >= st.active.len() {
            if k < st1.active.len() {
                assert(st1.active == st.active.push(objs[0].path));
                assert(st1.active[k] == objs[0].path);
                lemma_apply_objects_extends_active(st1, objs.drop_first());
                assert(apply_objects(st, objs).unwrap().active[k] == st1.active[k]);
                assert(objs[0].path == apply_objects(st, objs).unwrap().active[k]);
            } else {
                let j = choose|j: int|
                    0 <= j < objs.drop_first().len() && (#[trigger] objs.drop_first()[j]).path
                        == apply_objects(st1, objs.drop_first()).unwrap().active[k];
                assert(objs[j + 1].path == apply_objects(st, objs).unwrap().active[k]);
            }
        }
    }
}

/// The registry persists across a new object list: such a segment
/// clears only the active layout, and a path it does not name keeps
/// its entry — properties, locations and latest layout — exactly as
/// it was, gaining no further locations.
pub proof fn lemma_registry_persists(st: ScannerView, seg: crate::meta_data::SegmentMetaView, p: Seq<char>)
    requires
        forall|i: int, j: int|
            0 <= i < j < st.registry.len() ==> st.registry[i].path != st.registry[j].path,
        spec_add_segment(st, seg) is Some,
        seg.toc.contains_new_object_list,
        forall|j: int| 0 <= j < seg.objects.len() ==> (#[trigger] seg.objects[j]).path != p,
        reg_has(st.registry, p),
    ensures
        reg_has(spec_add_segment(st, seg).unwrap().registry, p),
        spec_add_segment(st, seg).unwrap().registry[obj_index(
            spec_add_segment(st, seg).unwrap().registry,
            p,
        )] == st.registry[obj_index(st.registry, p)],
{
    let st0 = seg_start_state(st, seg);
    lemma_apply_objects_keep_entry(st0, seg.objects, p);
    let st1 = apply_objects(st0, seg.objects).unwrap();
    let i0 = obj_index(st.registry, p);
    lemma_obj_index(st.registry, p);
    assert(st1.registry[i0].path == p);
    if seg.toc.contains_raw_data {
        let st2 = add_block(st1, seg.toc, seg.next_segment_offset, seg.raw_data_offset);
        // nothing the segment names is this path, so it is not active
        // and its locations stay put
        assert(!st1.active.contains(p)) by {
            if st1.active.contains(p) {
                let k = choose|k: int| 0 <= k < st1.active.len() && st1.active[k] == p;
                lemma_active_from_objects(st0, seg.objects, k);
            }
        }
        lemma_obj_index(st1.registry, p);
        assert(0 <= i0 < st1.registry.len());
        assert(!st1.active.contains(st1.registry[i0].path));
        assert(st2.registry[i0] == st1.registry[i0]);
        assert forall|j: int| 0 <= j < st2.registry.len() implies #[trigger] st2.registry[j].path
            == st1.registry[j].path by {
            if st1.active.contains(st1.registry[j].path) {
                assert(st2.registry[j].path == st1.registry[j].path);
            }
        }
        lemma_obj_index_same_paths(st2.registry, st1.registry, p);
    }
}

/// A data-carrying object of a segment is on the active list when the
/// segment is done — appended at the end if it was not active before
/// (`lemma_active_order_stable` pins the existing prefix), so the
/// block the segment may lay out gives it a channel in active-list
/// order.
pub proof fn lemma_data_object_appended(st: ScannerView, seg: crate::meta_data::SegmentMetaView, j: int)
    requires
        spec_add_segment(st, seg) is Some,
        0 <= j < seg.objects.len(),
        !(seg.objects[j].raw_data_index is NoData),
    ensures
        spec_add_segment(st, seg).unwrap().active.contains(seg.objects[j].path),
{
    let st0 = seg_start_state(st, seg);
    lemma_data_object_becomes_active(st0, seg.objects, j);
}

/// Active-list order is stable: a segment that declares no new object
/// list keeps every active path at its position, and can only append
/// paths that were not active before.
pub proof fn lemma_active_order_stable(st: ScannerView, seg: crate::meta_data::SegmentMetaView)
    requires
        !seg.toc.contains_new_object_list,
        spec_add_segment(st, seg) is Some,
    ensures
        spec_add_segment(st, seg).unwrap().active.len() >= st.active.len(),
        forall|i: int|
            0 <= i < st.active.len() ==> #[trigger] spec_add_segment(st, seg).unwrap().active[i]
                == st.active[i],
        forall|k: int|
            st.active.len() <= k < spec_add_segment(st, seg).unwrap().active.len()
                ==> !st.active.contains(
                #[trigger] spec_add_segment(st, seg).unwrap().active[k],
            ),
{
    lemma_apply_objects_extends_active(st, seg.objects);
}

} // verus!
