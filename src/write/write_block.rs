//! The primitive block encoder: nodes, ways and relations are packed into
//! groups of one kind each, their strings interned in a shared table, their
//! coordinates quantized and their id lists delta-coded; `finalize` sorts the
//! string table, rewrites every stored string index and frames the block.
use vstd::prelude::*;
use vstd::utf8::encode_utf8;
use crate::write::bbox::{grown_by, Bbox};
use crate::write::delta::{deltas, encode_stream};
use crate::write::strings::{with_string, with_strings, StringTableBuilder, MAX_STRINGS};
use crate::write::blob::{create_blob, framed, BlobError};
use crate::write::encode::{
    embedded, remap, node_group_message, rel_group_message, string_table_message, way_group_message,
    encode_string_table, put_node_groups, put_rel_groups, put_way_groups,
};
use crate::write::wire::{bytes_field, uint_field, put_bytes_field, put_uint_field};

verus! {

/// Elements per group unless the options say otherwise.
pub const DEFAULT_MAX_GROUP_SIZE: usize = 8000;

/// Nanodegrees per stored coordinate unit unless the options say otherwise.
pub const DEFAULT_GRANULARITY: i32 = 100;

/// Milliseconds per stored timestamp unit unless the options say otherwise.
pub const DEFAULT_DATE_GRANULARITY: i32 = 1000;

/// The kind of a relation member.
#[derive(Debug, Clone, Copy, PartialEq, Eq, Structural)]
pub enum RelMemberType {
    Node,
    Way,
    Relation,
}

/// The value of a member kind in a PBF `Relation.MemberType` field.
pub open spec fn member_code(t: RelMemberType) -> u32 {
    match t {
        RelMemberType::Node => 0,
        RelMemberType::Way => 1,
        RelMemberType::Relation => 2,
    }
}

/// Rust's integer division of `a` by a positive `g`: rounds toward zero.
pub open spec fn trunc_div(a: int, g: int) -> int {
    if a >= 0 {
        a / g
    } else {
        -((-a) / g)
    }
}

/// A coordinate in nanodegrees as a block stores it: its distance from the
/// block's offset, in whole units of the granularity.
pub open spec fn quantize(v: i64, offset: i64, granularity: i32) -> int {
    trunc_div(v - offset, granularity as int)
}

/// Every coordinate of `vs` quantized.
pub open spec fn quantized(vs: Seq<i64>, offset: i64, granularity: i32) -> Seq<i64> {
    vs.map_values(|v: i64| quantize(v, offset, granularity) as i64)
}

/// `v` minus `offset` fits an `i64`.
pub open spec fn offset_fits(v: i64, offset: i64) -> bool {
    i64::MIN <= v - offset <= i64::MAX
}

/// Every string index of `ks` is below `n`.
pub open spec fn indices_below(ks: Seq<u32>, n: nat) -> bool {
    forall|j: int| 0 <= j < ks.len() ==> ks[j] < n
}

/// `tags` resolve, through the string table `table`, to the keys `keys` and
/// the values `vals`.
pub open spec fn tags_resolve(
    table: Seq<Seq<u8>>,
    keys: Seq<u32>,
    vals: Seq<u32>,
    tags: Seq<(String, String)>,
) -> bool {
    &&& keys.len() == tags.len()
    &&& vals.len() == tags.len()
    &&& indices_below(keys, table.len())
    &&& indices_below(vals, table.len())
    &&& forall|j: int| 0 <= j < tags.len() ==> #[trigger] table[keys[j] as int] == encode_utf8(tags[j].0@)
    &&& forall|j: int| 0 <= j < tags.len() ==> #[trigger] table[vals[j] as int] == encode_utf8(tags[j].1@)
}

/// Every string index stored in the node groups `gs` is below `n`.
pub open spec fn nodes_valid(gs: Seq<Seq<EncNode>>, n: nat) -> bool {
    forall|g: int, i: int|
        0 <= g < gs.len() && 0 <= i < gs[g].len() ==> {
            &&& indices_below(#[trigger] gs[g][i].keys@, n)
            &&& indices_below(gs[g][i].vals@, n)
        }
}

/// Every string index stored in the way groups `gs` is below `n`.
pub open spec fn ways_valid(gs: Seq<Seq<EncWay>>, n: nat) -> bool {
    forall|g: int, i: int|
        0 <= g < gs.len() && 0 <= i < gs[g].len() ==> {
            &&& indices_below(#[trigger] gs[g][i].keys@, n)
            &&& indices_below(gs[g][i].vals@, n)
        }
}

/// Every string index stored in the relation groups `gs` is below `n`.
pub open spec fn rels_valid(gs: Seq<Seq<EncRelation>>, n: nat) -> bool {
    forall|g: int, i: int|
        0 <= g < gs.len() && 0 <= i < gs[g].len() ==> {
            &&& indices_below(#[trigger] gs[g][i].keys@, n)
            &&& indices_below(gs[g][i].vals@, n)
            &&& indices_below(gs[g][i].roles_sid@, n)
        }
}

proof fn lemma_valid_grow(
    ns: Seq<Seq<EncNode>>,
    ws: Seq<Seq<EncWay>>,
    rs: Seq<Seq<EncRelation>>,
    n: nat,
    m: nat,
)
    requires
        nodes_valid(ns, n),
        ways_valid(ws, n),
        rels_valid(rs, n),
        n <= m,
    ensures
        nodes_valid(ns, m),
        ways_valid(ws, m),
        rels_valid(rs, m),
{
    assert forall|g: int, i: int| 0 <= g < ns.len() && 0 <= i < ns[g].len() implies {
        &&& indices_below(#[trigger] ns[g][i].keys@, m)
        &&& indices_below(ns[g][i].vals@, m)
    } by {
        assert(indices_below(ns[g][i].keys@, n));
    }
    assert forall|g: int, i: int| 0 <= g < ws.len() && 0 <= i < ws[g].len() implies {
        &&& indices_below(#[trigger] ws[g][i].keys@, m)
        &&& indices_below(ws[g][i].vals@, m)
    } by {
        assert(indices_below(ws[g][i].keys@, n));
    }
    assert forall|g: int, i: int| 0 <= g < rs.len() && 0 <= i < rs[g].len() implies {
        &&& indices_below(#[trigger] rs[g][i].keys@, m)
        &&& indices_below(rs[g][i].vals@, m)
        &&& indices_below(rs[g][i].roles_sid@, m)
    } by {
        assert(indices_below(rs[g][i].keys@, n));
    }
}

proof fn lemma_nodes_valid_pack(gs: Seq<Seq<EncNode>>, x: EncNode, max: usize, n: nat)
    requires
        nodes_valid(gs, n),
        indices_below(x.keys@, n),
        indices_below(x.vals@, n),
    ensures
        nodes_valid(pack(gs, x, max), n),
{
    assert forall|g: int, i: int|
        0 <= g < pack(gs, x, max).len() && 0 <= i < pack(gs, x, max)[g].len() implies {
        &&& indices_below(#[trigger] pack(gs, x, max)[g][i].keys@, n)
        &&& indices_below(pack(gs, x, max)[g][i].vals@, n)
    } by {
        lemma_pack_index(gs, x, max, g, i);
    }
}

proof fn lemma_ways_valid_pack(gs: Seq<Seq<EncWay>>, x: EncWay, max: usize, n: nat)
    requires
        ways_valid(gs, n),
        indices_below(x.keys@, n),
        indices_below(x.vals@, n),
    ensures
        ways_valid(pack(gs, x, max), n),
{
    assert forall|g: int, i: int|
        0 <= g < pack(gs, x, max).len() && 0 <= i < pack(gs, x, max)[g].len() implies {
        &&& indices_below(#[trigger] pack(gs, x, max)[g][i].keys@, n)
        &&& indices_below(pack(gs, x, max)[g][i].vals@, n)
    } by {
        lemma_pack_index(gs, x, max, g, i);
    }
}

proof fn lemma_rels_valid_pack(gs: Seq<Seq<EncRelation>>, x: EncRelation, max: usize, n: nat)
    requires
        rels_valid(gs, n),
        indices_below(x.keys@, n),
        indices_below(x.vals@, n),
        indices_below(x.roles_sid@, n),
    ensures
        rels_valid(pack(gs, x, max), n),
{
    assert forall|g: int, i: int|
        0 <= g < pack(gs, x, max).len() && 0 <= i < pack(gs, x, max)[g].len() implies {
        &&& indices_below(#[trigger] pack(gs, x, max)[g][i].keys@, n)
        &&& indices_below(pack(gs, x, max)[g][i].vals@, n)
        &&& indices_below(pack(gs, x, max)[g][i].roles_sid@, n)
    } by {
        lemma_pack_index(gs, x, max, g, i);
        if g < gs.len() && i < gs[g].len() && pack(gs, x, max)[g][i] == gs[g][i] {
            assert(indices_below(gs[g][i].keys@, n));
        }
    }
}

/// The strings of `tags` in the order they are interned: each key, then its
/// value.
pub open spec fn tag_strings(tags: Seq<(String, String)>) -> Seq<Seq<u8>>
    decreases tags.len(),
{
    if tags.len() == 0 {
        Seq::empty()
    } else {
        tag_strings(tags.drop_last()) + seq![encode_utf8(tags.last().0@), encode_utf8(tags.last().1@)]
    }
}

/// The roles of `members`, in order.
pub open spec fn role_strings(members: Seq<(String, i64, RelMemberType)>) -> Seq<Seq<u8>> {
    members.map_values(|m: (String, i64, RelMemberType)| encode_utf8(m.0@))
}

/// `groups` with `x` appended: to the last group while it holds fewer than
/// `max` elements, else as the first element of a new group.
pub open spec fn pack<T>(groups: Seq<Seq<T>>, x: T, max: usize) -> Seq<Seq<T>> {
    if groups.len() > 0 && groups.last().len() < max {
        groups.update(groups.len() - 1, groups.last().push(x))
    } else {
        groups.push(seq![x])
    }
}

/// The elements of each group.
pub open spec fn group_seqs<T>(groups: Seq<Vec<T>>) -> Seq<Seq<T>> {
    groups.map_values(|g: Vec<T>| g@)
}

/// The last element of the last group.
pub open spec fn last_of<T>(groups: Seq<Seq<T>>) -> T {
    groups.last().last()
}

/// An element of packed groups is an earlier element at the same place, or
/// the one appended.
pub proof fn lemma_pack_index<T>(groups: Seq<Seq<T>>, x: T, max: usize, g: int, i: int)
    requires
        0 <= g < pack(groups, x, max).len(),
        0 <= i < pack(groups, x, max)[g].len(),
    ensures
        (g < groups.len() && i < groups[g].len() && pack(groups, x, max)[g][i] == groups[g][i])
            || pack(groups, x, max)[g][i] == x,
{
}

/// The appended element is the last one.
pub proof fn lemma_pack_last<T>(groups: Seq<Seq<T>>, x: T, max: usize)
    ensures
        last_of(pack(groups, x, max)) == x,
{
}

/// Quantizes every coordinate of `vs`.
fn quantize_list(vs: &Vec<i64>, offset: i64, granularity: i32) -> (r: Vec<i64>)
    requires
        granularity > 0,
        forall|i: int| 0 <= i < vs@.len() ==> offset_fits(#[trigger] vs@[i], offset),
    ensures
        r@ == quantized(vs@, offset, granularity),
{
    let mut r: Vec<i64> = Vec::new();
    let mut i: usize = 0;
    while i < vs.len()
        invariant
            0 <= i <= vs@.len(),
            granularity > 0,
            forall|k: int| 0 <= k < vs@.len() ==> offset_fits(#[trigger] vs@[k], offset),
            r@ == quantized(vs@, offset, granularity).take(i as int),
        decreases vs@.len() - i,
    {
        assert(offset_fits(vs@[i as int], offset));
        let q = (vs[i] - offset) / (granularity as i64);
        r.push(q);
        i = i + 1;
        assert(r@ =~= quantized(vs@, offset, granularity).take(i as int));
    }
    assert(quantized(vs@, offset, granularity).take(vs@.len() as int) =~= quantized(vs@, offset, granularity));
    r
}

/// Appends `x` to `groups` as [`pack`] says.
fn push_packed<T>(groups: &mut Vec<Vec<T>>, x: T, max: usize)
    ensures
        group_seqs(final(groups)@) == pack(group_seqs(old(groups)@), x, max),
{
    let n = groups.len();
    if n > 0 && groups[n - 1].len() < max {
        let mut g = groups.pop().unwrap();
        g.push(x);
        groups.push(g);
        assert(group_seqs(groups@) =~= pack(group_seqs(old(groups)@), x, max));
    } else {
        let mut g: Vec<T> = Vec::new();
        g.push(x);
        groups.push(g);
        assert(group_seqs(groups@) =~= pack(group_seqs(old(groups)@), x, max));
    }
}

/// An optional `int32` field: written only when given.
pub open spec fn opt_i32_field(field: u64, v: Option<i32>) -> Seq<u8> {
    match v {
        Some(x) => uint_field(field, x as u64),
        None => Seq::empty(),
    }
}

/// An optional `int64` field: written only when given.
pub open spec fn opt_i64_field(field: u64, v: Option<i64>) -> Seq<u8> {
    match v {
        Some(x) => uint_field(field, x as u64),
        None => Seq::empty(),
    }
}

/// Settings of a new block; `None` takes the default.
#[derive(Debug, Clone, Copy)]
pub struct PrimitiveBlockOptions {
    pub max_group_size: Option<usize>,
    pub granularity: Option<i32>,
    pub date_granularity: Option<i32>,
    pub lat_offset: Option<i64>,
    pub lon_offset: Option<i64>,
}

impl Default for PrimitiveBlockOptions {
    fn default() -> (r: Self)
        ensures
            r.max_group_size is None,
            r.granularity is None,
            r.date_granularity is None,
            r.lat_offset is None,
            r.lon_offset is None,
    {
        PrimitiveBlockOptions {
            max_group_size: None,
            granularity: None,
            date_granularity: None,
            lat_offset: None,
            lon_offset: None,
        }
    }
}

impl PrimitiveBlockOptions {
    /// An empty block with these options.
    pub fn create(&self) -> (r: PrimitiveBlock)
        requires
            options_valid(*self),
        ensures
            r.made_with(*self),
    {
        PrimitiveBlock::new(self)
    }
}

/// The granularity must be positive when given.
pub open spec fn options_valid(o: PrimitiveBlockOptions) -> bool {
    o.granularity is Some ==> o.granularity->0 > 0
}

/// A node as a block stores it: string indices of its tags and quantized
/// coordinates.
#[derive(Debug)]
pub struct EncNode {
    pub id: i64,
    pub keys: Vec<u32>,
    pub vals: Vec<u32>,
    pub lat: i64,
    pub lon: i64,
}

/// A way as a block stores it: string indices of its tags, delta-coded node
/// references and delta-coded quantized inline coordinates (empty when the
/// way carries none).
#[derive(Debug)]
pub struct EncWay {
    pub id: i64,
    pub keys: Vec<u32>,
    pub vals: Vec<u32>,
    pub refs: Vec<i64>,
    pub lat: Vec<i64>,
    pub lon: Vec<i64>,
}

/// A relation as a block stores it: string indices of its tags and member
/// roles, delta-coded member ids and member kinds.
#[derive(Debug)]
pub struct EncRelation {
    pub id: i64,
    pub keys: Vec<u32>,
    pub vals: Vec<u32>,
    pub roles_sid: Vec<u32>,
    pub memids: Vec<i64>,
    pub types: Vec<u32>,
}

/// A PBF primitive block under construction.
#[derive(Debug)]
pub struct PrimitiveBlock {
    max_group_size: usize,
    options: PrimitiveBlockOptions,
    bbox: Bbox,
    strings: StringTableBuilder,
    granularity: i32,
    date_granularity: i32,
    lat_offset: i64,
    lon_offset: i64,
    nodes: Vec<Vec<EncNode>>,
    ways: Vec<Vec<EncWay>>,
    rels: Vec<Vec<EncRelation>>,
}

impl Default for PrimitiveBlock {
    /// An empty block with every default setting.
    fn default() -> (r: Self)
        ensures
            r.made_with(
                PrimitiveBlockOptions {
                    max_group_size: None,
                    granularity: None,
                    date_granularity: None,
                    lat_offset: None,
                    lon_offset: None,
                },
            ),
    {
        PrimitiveBlock::new(&PrimitiveBlockOptions::default())
    }
}

impl PrimitiveBlock {
    pub closed spec fn max_group_size_spec(&self) -> usize {
        self.max_group_size
    }

    /// The options the block was made with.
    pub closed spec fn options_spec(&self) -> PrimitiveBlockOptions {
        self.options
    }

    pub closed spec fn bbox_spec(&self) -> Bbox {
        self.bbox
    }

    pub closed spec fn strings_spec(&self) -> StringTableBuilder {
        self.strings
    }

    pub closed spec fn granularity_spec(&self) -> i32 {
        self.granularity
    }

    pub closed spec fn date_granularity_spec(&self) -> i32 {
        self.date_granularity
    }

    pub closed spec fn lat_offset_spec(&self) -> i64 {
        self.lat_offset
    }

    pub closed spec fn lon_offset_spec(&self) -> i64 {
        self.lon_offset
    }

    /// The node groups, in order.
    pub closed spec fn node_groups(&self) -> Seq<Seq<EncNode>> {
        group_seqs(self.nodes@)
    }

    /// The way groups, in order.
    pub closed spec fn way_groups(&self) -> Seq<Seq<EncWay>> {
        group_seqs(self.ways@)
    }

    /// The relation groups, in order.
    pub closed spec fn rel_groups(&self) -> Seq<Seq<EncRelation>> {
        group_seqs(self.rels@)
    }

    /// The string table's entries and usage counts.
    pub open spec fn table_state(&self) -> (Seq<Seq<u8>>, Seq<u32>) {
        (self.strings_spec().entries(), self.strings_spec().usages())
    }

    /// The number of entries of the string table.
    pub open spec fn string_count(&self) -> nat {
        self.strings_spec().entries().len()
    }

    /// The string `k` stands for in this block.
    pub open spec fn string_at(&self, k: u32) -> Seq<u8> {
        self.strings_spec().entries()[k as int]
    }

    /// Every stored string index points into the string table.
    pub open spec fn indices_valid(&self) -> bool {
        &&& nodes_valid(self.node_groups(), self.string_count())
        &&& ways_valid(self.way_groups(), self.string_count())
        &&& rels_valid(self.rel_groups(), self.string_count())
    }

    pub open spec fn wf(&self) -> bool {
        &&& self.strings_spec().wf()
        &&& self.granularity_spec() > 0
        &&& self.indices_valid()
    }

    /// Adding a tag list of `n` tags leaves room in the string table.
    pub open spec fn room_for(&self, n: nat) -> bool {
        self.string_count() + 4 * n <= MAX_STRINGS
    }

    /// `tags` resolve, through this block's string table, to the keys `keys`
    /// and the values `vals`.
    pub open spec fn tags_stored(&self, keys: Seq<u32>, vals: Seq<u32>, tags: Seq<(String, String)>) -> bool {
        tags_resolve(self.strings_spec().entries(), keys, vals, tags)
    }

    /// What an addition keeps: the options, the string table's earlier
    /// entries and well-formedness.
    pub open spec fn keeps(&self, next: &Self) -> bool {
        &&& next.wf()
        &&& next.max_group_size_spec() == self.max_group_size_spec()
        &&& next.options_spec() == self.options_spec()
        &&& next.granularity_spec() == self.granularity_spec()
        &&& next.date_granularity_spec() == self.date_granularity_spec()
        &&& next.lat_offset_spec() == self.lat_offset_spec()
        &&& next.lon_offset_spec() == self.lon_offset_spec()
        &&& self.string_count() <= next.string_count()
        &&& forall|k: int| 0 <= k < self.string_count() ==> #[trigger] next.strings_spec().entries()[k]
            == self.strings_spec().entries()[k]
    }

    /// A block made with `opts`, empty.
    pub open spec fn made_with(&self, opts: PrimitiveBlockOptions) -> bool {
        &&& self.wf()
        &&& self.options_spec() == opts
        &&& self.max_group_size_spec() == (match opts.max_group_size {
            Some(v) => v,
            None => DEFAULT_MAX_GROUP_SIZE,
        })
        &&& self.granularity_spec() == (match opts.granularity {
            Some(v) => v,
            None => DEFAULT_GRANULARITY,
        })
        &&& self.date_granularity_spec() == (match opts.date_granularity {
            Some(v) => v,
            None => DEFAULT_DATE_GRANULARITY,
        })
        &&& self.lat_offset_spec() == (match opts.lat_offset {
            Some(v) => v,
            None => 0,
        })
        &&& self.lon_offset_spec() == (match opts.lon_offset {
            Some(v) => v,
            None => 0,
        })
        &&& self.string_count() == 0
        &&& self.bbox_spec() == crate::write::bbox::empty_bbox()
        &&& self.node_groups().len() == 0
        &&& self.way_groups().len() == 0
        &&& self.rel_groups().len() == 0
    }

    /// An empty block with the given options.
    pub fn new(opts: &PrimitiveBlockOptions) -> (r: Self)
        requires
            options_valid(*opts),
        ensures
            r.made_with(*opts),
    {
        let max_group_size = match opts.max_group_size {
            Some(v) => v,
            None => DEFAULT_MAX_GROUP_SIZE,
        };
        let granularity = match opts.granularity {
            Some(v) => v,
            None => DEFAULT_GRANULARITY,
        };
        let date_granularity = match opts.date_granularity {
            Some(v) => v,
            None => DEFAULT_DATE_GRANULARITY,
        };
        let lat_offset = match opts.lat_offset {
            Some(v) => v,
            None => 0,
        };
        let lon_offset = match opts.lon_offset {
            Some(v) => v,
            None => 0,
        };
        let r = PrimitiveBlock {
            max_group_size,
            options: *opts,
            bbox: Bbox::default(),
            strings: StringTableBuilder::new(),
            granularity,
            date_granularity,
            lat_offset,
            lon_offset,
            nodes: Vec::new(),
            ways: Vec::new(),
            rels: Vec::new(),
        };
        assert(r.node_groups() =~= Seq::empty());
        assert(r.way_groups() =~= Seq::empty());
        assert(r.rel_groups() =~= Seq::empty());
        r
    }

    /// An empty block; `max_elems`, `granularity` and `date_granularity`
    /// replace the defaults where given.
    pub fn new_with_opts(
        max_elems: Option<usize>,
        granularity: Option<i32>,
        date_granularity: Option<i32>,
    ) -> (r: Self)
        requires
            max_elems is Some ==> max_elems->0 > 0,
            granularity is Some ==> granularity->0 > 0,
        ensures
            r.made_with(
                PrimitiveBlockOptions {
                    max_group_size: max_elems,
                    granularity,
                    date_granularity,
                    lat_offset: None,
                    lon_offset: None,
                },
            ),
    {
        let opts = PrimitiveBlockOptions {
            max_group_size: max_elems,
            granularity,
            date_granularity,
            lat_offset: None,
            lon_offset: None,
        };
        Self::new(&opts)
    }

    /// The bounding box of every coordinate added so far: `left`/`right`
    /// bound the longitudes, `bottom`/`top` the latitudes.
    pub fn bbox(&self) -> (r: Bbox)
        ensures
            r == self.bbox_spec(),
    {
        self.bbox
    }

    /// Quantizes a latitude for this block.
    fn encode_lat(&self, lat: i64) -> (r: i64)
        requires
            self.granularity_spec() > 0,
            offset_fits(lat, self.lat_offset_spec()),
        ensures
            r == quantize(lat, self.lat_offset_spec(), self.granularity_spec()),
    {
        (lat - self.lat_offset) / (self.granularity as i64)
    }

    /// Quantizes a longitude for this block.
    fn encode_lon(&self, lon: i64) -> (r: i64)
        requires
            self.granularity_spec() > 0,
            offset_fits(lon, self.lon_offset_spec()),
        ensures
            r == quantize(lon, self.lon_offset_spec(), self.granularity_spec()),
    {
        (lon - self.lon_offset) / (self.granularity as i64)
    }

    /// Interns the keys and values of `tags`, in order.
    fn add_tags(&mut self, tags: &Vec<(String, String)>) -> (r: (Vec<u32>, Vec<u32>))
        requires
            old(self).wf(),
            old(self).room_for(tags@.len()),
        ensures
            old(self).keeps(&*final(self)),
            final(self).string_count() <= old(self).string_count() + 4 * tags@.len(),
            final(self).tags_stored(r.0@, r.1@, tags@),
            final(self).table_state() == with_strings(
                old(self).strings_spec().entries(),
                old(self).strings_spec().usages(),
                tag_strings(tags@),
            ),
            final(self).node_groups() == old(self).node_groups(),
            final(self).way_groups() == old(self).way_groups(),
            final(self).rel_groups() == old(self).rel_groups(),
            final(self).bbox_spec() == old(self).bbox_spec(),
    {
        let ghost start = *self;
        let mut keys: Vec<u32> = Vec::new();
        let mut vals: Vec<u32> = Vec::new();
        let mut i: usize = 0;
        while i < tags.len()
            invariant
                0 <= i <= tags@.len(),
                start.wf(),
                start.room_for(tags@.len()),
                self.strings.wf(),
                self.max_group_size == start.max_group_size,
                self.options == start.options,
                self.granularity == start.granularity,
                self.date_granularity == start.date_granularity,
                self.lat_offset == start.lat_offset,
                self.lon_offset == start.lon_offset,
                self.bbox == start.bbox,
                self.nodes == start.nodes,
                self.ways == start.ways,
                self.rels == start.rels,
                self.string_count() <= start.string_count() + 4 * i,
                start.string_count() <= self.string_count(),
                forall|k: int| 0 <= k < start.string_count() ==> #[trigger] self.strings_spec().entries()[k]
                    == start.strings_spec().entries()[k],
                keys@.len() == i,
                vals@.len() == i,
                self.table_state() == with_strings(
                    start.strings_spec().entries(),
                    start.strings_spec().usages(),
                    tag_strings(tags@.take(i as int)),
                ),
                forall|j: int| 0 <= j < i ==> #[trigger] keys@[j] < self.string_count() && self.string_at(keys@[j])
                    == encode_utf8(tags@[j].0@),
                forall|j: int| 0 <= j < i ==> #[trigger] vals@[j] < self.string_count() && self.string_at(vals@[j])
                    == encode_utf8(tags@[j].1@),
            decreases tags@.len() - i,
        {
            let ghost before = self.strings;
            let k = self.strings.add_string(tags[i].0.clone());
            let ghost middle = self.strings;
            let v = self.strings.add_string(tags[i].1.clone());
            keys.push(k as u32);
            vals.push(v as u32);
            proof {
                let ts = tag_strings(tags@.take(i + 1));
                assert(tags@.take(i + 1).drop_last() =~= tags@.take(i as int));
                assert(ts.drop_last().drop_last() =~= tag_strings(tags@.take(i as int)));
                assert(ts.drop_last().last() == encode_utf8(tags@[i as int].0@));
                assert(ts.last() == encode_utf8(tags@[i as int].1@));
                let e0 = start.strings_spec().entries();
                let u0 = start.strings_spec().usages();
                let half = with_strings(e0, u0, ts.drop_last());
                assert(half == with_string(before.entries(), before.usages(), encode_utf8(tags@[i as int].0@)));
                assert(with_strings(e0, u0, ts) == with_string(half.0, half.1, ts.last()));
                assert forall|k: int| 0 <= k < start.string_count() implies #[trigger] self.strings_spec().entries()[k]
                    == start.strings_spec().entries()[k] by {
                    assert(middle.entries()[k] == before.entries()[k]);
                }
                assert forall|j: int| 0 <= j < i + 1 implies #[trigger] keys@[j] < self.string_count() && self.string_at(keys@[j])
                    == encode_utf8(tags@[j].0@) by {
                    if j < i {
                        assert(before.entries()[keys@[j] as int] == middle.entries()[keys@[j] as int]);
                    }
                }
            }
            i = i + 1;
        }
        proof {
            assert(tags@.take(i as int) =~= tags@);
            lemma_valid_grow(
                start.node_groups(),
                start.way_groups(),
                start.rel_groups(),
                start.string_count(),
                self.string_count(),
            );
        }
        (keys, vals)
    }

    /// Adds a node with tags `tags` at `lat`, `lon` (nanodegrees), to the last
    /// node group while it has room, else to a new one.
    pub fn add_node(&mut self, id: i64, tags: Vec<(String, String)>, lat: i64, lon: i64)
        requires
            old(self).wf(),
            old(self).room_for(tags@.len()),
            offset_fits(lat, old(self).lat_offset_spec()),
            offset_fits(lon, old(self).lon_offset_spec()),
        ensures
            old(self).keeps(&*final(self)),
            final(self).node_groups() == pack(
                old(self).node_groups(),
                last_of(final(self).node_groups()),
                old(self).max_group_size_spec(),
            ),
            last_of(final(self).node_groups()).id == id,
            final(self).tags_stored(
                last_of(final(self).node_groups()).keys@,
                last_of(final(self).node_groups()).vals@,
                tags@,
            ),
            final(self).table_state() == with_strings(
                old(self).strings_spec().entries(),
                old(self).strings_spec().usages(),
                tag_strings(tags@),
            ),
            last_of(final(self).node_groups()).lat == quantize(
                lat,
                old(self).lat_offset_spec(),
                old(self).granularity_spec(),
            ),
            last_of(final(self).node_groups()).lon == quantize(
                lon,
                old(self).lon_offset_spec(),
                old(self).granularity_spec(),
            ),
            final(self).way_groups() == old(self).way_groups(),
            final(self).rel_groups() == old(self).rel_groups(),
            grown_by(old(self).bbox_spec(), final(self).bbox_spec(), seq![lon], seq![lat]),
    {
        let (keys, vals) = self.add_tags(&tags);
        let ghost tagged = *self;
        let ghost kv = (keys@, vals@);
        self.bbox.add_node(lon, lat);
        let node = EncNode {
            id,
            keys,
            vals,
            lat: self.encode_lat(lat),
            lon: self.encode_lon(lon),
        };
        let ghost mid = *self;
        let ghost x = node;
        push_packed(&mut self.nodes, node, self.max_group_size);
        proof {
            lemma_pack_last(mid.node_groups(), x, self.max_group_size);
            assert(tagged.tags_stored(kv.0, kv.1, tags@));
            assert(x.keys@ == kv.0 && x.vals@ == kv.1);
            assert(self.strings_spec() == tagged.strings_spec());
            assert(last_of(self.node_groups()) == x);
            lemma_nodes_valid_pack(mid.node_groups(), x, self.max_group_size, self.string_count());
            assert(self.way_groups() == tagged.way_groups());
            assert(self.rel_groups() == tagged.rel_groups());
            assert(self.indices_valid());
        }
    }

    /// Adds a way with node references `refs`, tags `tags` and, when `lats`
    /// and `lons` are not empty, the coordinates of its nodes in nanodegrees;
    /// to the last way group while it has room, else to a new one.
    pub fn add_way(
        &mut self,
        id: i64,
        refs: Vec<i64>,
        tags: Vec<(String, String)>,
        lats: Vec<i64>,
        lons: Vec<i64>,
    )
        requires
            old(self).wf(),
            old(self).room_for(tags@.len()),
            lats@.len() == lons@.len(),
            lats@.len() == 0 || lats@.len() == refs@.len(),
            forall|i: int| 0 <= i < lats@.len() ==> offset_fits(#[trigger] lats@[i], old(self).lat_offset_spec()),
            forall|i: int| 0 <= i < lons@.len() ==> offset_fits(#[trigger] lons@[i], old(self).lon_offset_spec()),
        ensures
            old(self).keeps(&*final(self)),
            final(self).way_groups() == pack(
                old(self).way_groups(),
                last_of(final(self).way_groups()),
                old(self).max_group_size_spec(),
            ),
            last_of(final(self).way_groups()).id == id,
            final(self).tags_stored(
                last_of(final(self).way_groups()).keys@,
                last_of(final(self).way_groups()).vals@,
                tags@,
            ),
            final(self).table_state() == with_strings(
                old(self).strings_spec().entries(),
                old(self).strings_spec().usages(),
                tag_strings(tags@),
            ),
            last_of(final(self).way_groups()).refs@ == deltas(refs@),
            last_of(final(self).way_groups()).lat@ == deltas(
                quantized(lats@, old(self).lat_offset_spec(), old(self).granularity_spec()),
            ),
            last_of(final(self).way_groups()).lon@ == deltas(
                quantized(lons@, old(self).lon_offset_spec(), old(self).granularity_spec()),
            ),
            final(self).node_groups() == old(self).node_groups(),
            final(self).rel_groups() == old(self).rel_groups(),
            grown_by(old(self).bbox_spec(), final(self).bbox_spec(), lons@, lats@),
    {
        let (keys, vals) = self.add_tags(&tags);
        let ghost tagged = *self;
        let ghost kv = (keys@, vals@);
        self.bbox.add_node_list(lons.as_slice(), lats.as_slice());
        let qlat = quantize_list(&lats, self.lat_offset, self.granularity);
        let qlon = quantize_list(&lons, self.lon_offset, self.granularity);
        let way = EncWay {
            id,
            keys,
            vals,
            refs: encode_stream(refs.as_slice()),
            lat: encode_stream(qlat.as_slice()),
            lon: encode_stream(qlon.as_slice()),
        };
        let ghost mid = *self;
        let ghost x = way;
        push_packed(&mut self.ways, way, self.max_group_size);
        proof {
            lemma_pack_last(mid.way_groups(), x, self.max_group_size);
            assert(tagged.tags_stored(kv.0, kv.1, tags@));
            assert(x.keys@ == kv.0 && x.vals@ == kv.1);
            assert(self.strings_spec() == tagged.strings_spec());
            assert(last_of(self.way_groups()) == x);
            lemma_ways_valid_pack(mid.way_groups(), x, self.max_group_size, self.string_count());
            assert(self.node_groups() == tagged.node_groups());
            assert(self.rel_groups() == tagged.rel_groups());
            assert(tagged.indices_valid());
            assert(self.string_count() == tagged.string_count());
            assert(self.indices_valid());
        }
    }

    /// Interns the roles of `members`, in order, and delta-codes their ids.
    fn add_members(&mut self, members: &Vec<(String, i64, RelMemberType)>) -> (r: (
        Vec<u32>,
        Vec<i64>,
        Vec<u32>,
    ))
        requires
            old(self).wf(),
            old(self).room_for(members@.len()),
        ensures
            old(self).keeps(&*final(self)),
            final(self).string_count() <= old(self).string_count() + 4 * members@.len(),
            r.0@.len() == members@.len(),
            final(self).table_state() == with_strings(
                old(self).strings_spec().entries(),
                old(self).strings_spec().usages(),
                role_strings(members@),
            ),
            indices_below(r.0@, final(self).string_count()),
            forall|j: int|
                0 <= j < members@.len() ==> #[trigger] final(self).strings_spec().entries()[r.0@[j] as int]
                    == encode_utf8(members@[j].0@),
            r.1@ == deltas(members@.map_values(|m: (String, i64, RelMemberType)| m.1)),
            r.2@ == members@.map_values(|m: (String, i64, RelMemberType)| member_code(m.2)),
            final(self).node_groups() == old(self).node_groups(),
            final(self).way_groups() == old(self).way_groups(),
            final(self).rel_groups() == old(self).rel_groups(),
            final(self).bbox_spec() == old(self).bbox_spec(),
    {
        let ghost start = *self;
        let ghost ids = members@.map_values(|m: (String, i64, RelMemberType)| m.1);
        let ghost codes = members@.map_values(|m: (String, i64, RelMemberType)| member_code(m.2));
        let mut roles: Vec<u32> = Vec::new();
        let mut memids: Vec<i64> = Vec::new();
        let mut types: Vec<u32> = Vec::new();
        let mut enc = crate::write::delta::DeltaEnc::default();
        let mut i: usize = 0;
        while i < members.len()
            invariant
                0 <= i <= members@.len(),
                start.wf(),
                start.room_for(members@.len()),
                ids == members@.map_values(|m: (String, i64, RelMemberType)| m.1),
                codes == members@.map_values(|m: (String, i64, RelMemberType)| member_code(m.2)),
                self.strings.wf(),
                self.max_group_size == start.max_group_size,
                self.options == start.options,
                self.granularity == start.granularity,
                self.date_granularity == start.date_granularity,
                self.lat_offset == start.lat_offset,
                self.lon_offset == start.lon_offset,
                self.bbox == start.bbox,
                self.nodes == start.nodes,
                self.ways == start.ways,
                self.rels == start.rels,
                self.string_count() <= start.string_count() + 4 * i,
                start.string_count() <= self.string_count(),
                forall|k: int| 0 <= k < start.string_count() ==> #[trigger] self.strings_spec().entries()[k]
                    == start.strings_spec().entries()[k],
                roles@.len() == i,
                self.table_state() == with_strings(
                    start.strings_spec().entries(),
                    start.strings_spec().usages(),
                    role_strings(members@).take(i as int),
                ),
                forall|j: int| 0 <= j < i ==> #[trigger] roles@[j] < self.string_count() && self.string_at(roles@[j])
                    == encode_utf8(members@[j].0@),
                memids@ == deltas(ids).take(i as int),
                enc.prev == crate::write::delta::before(ids, i as int),
                types@ == codes.take(i as int),
            decreases members@.len() - i,
        {
            let ghost before = self.strings;
            let k = self.strings.add_string(members[i].0.clone());
            roles.push(k as u32);
            let d = enc.encode(members[i].1);
            memids.push(d);
            let code: u32 = match members[i].2 {
                RelMemberType::Node => 0,
                RelMemberType::Way => 1,
                RelMemberType::Relation => 2,
            };
            types.push(code);
            proof {
                assert(role_strings(members@).take(i + 1).drop_last() =~= role_strings(members@).take(i as int));
                assert forall|k: int| 0 <= k < start.string_count() implies #[trigger] self.strings_spec().entries()[k]
                    == start.strings_spec().entries()[k] by {
                    assert(self.strings.entries()[k] == before.entries()[k]);
                }
                assert forall|j: int| 0 <= j < i + 1 implies #[trigger] roles@[j] < self.string_count() && self.string_at(roles@[j])
                    == encode_utf8(members@[j].0@) by {
                    if j < i {
                        assert(before.entries()[roles@[j] as int] == self.strings.entries()[roles@[j] as int]);
                    }
                }
            }
            i = i + 1;
            assert(memids@ =~= deltas(ids).take(i as int));
            assert(types@ =~= codes.take(i as int));
        }
        proof {
            assert(deltas(ids).take(i as int) =~= deltas(ids));
            assert(role_strings(members@).take(i as int) =~= role_strings(members@));
            assert(codes.take(i as int) =~= codes);
            lemma_valid_grow(
                start.node_groups(),
                start.way_groups(),
                start.rel_groups(),
                start.string_count(),
                self.string_count(),
            );
        }
        (roles, memids, types)
    }

    /// Adds a relation with tags `tags` and members `(role, member id, kind)`,
    /// to the last relation group while it has room, else to a new one.
    pub fn add_relation(
        &mut self,
        id: i64,
        tags: Vec<(String, String)>,
        members: Vec<(String, i64, RelMemberType)>,
    )
        requires
            old(self).wf(),
            old(self).room_for(tags@.len() + members@.len()),
        ensures
            old(self).keeps(&*final(self)),
            final(self).rel_groups() == pack(
                old(self).rel_groups(),
                last_of(final(self).rel_groups()),
                old(self).max_group_size_spec(),
            ),
            last_of(final(self).rel_groups()).id == id,
            final(self).tags_stored(
                last_of(final(self).rel_groups()).keys@,
                last_of(final(self).rel_groups()).vals@,
                tags@,
            ),
            final(self).table_state() == with_strings(
                with_strings(
                    old(self).strings_spec().entries(),
                    old(self).strings_spec().usages(),
                    tag_strings(tags@),
                ).0,
                with_strings(
                    old(self).strings_spec().entries(),
                    old(self).strings_spec().usages(),
                    tag_strings(tags@),
                ).1,
                role_strings(members@),
            ),
            last_of(final(self).rel_groups()).roles_sid@.len() == members@.len(),
            forall|j: int|
                0 <= j < members@.len() ==> #[trigger] final(self).string_at(
                    last_of(final(self).rel_groups()).roles_sid@[j],
                ) == encode_utf8(members@[j].0@),
            last_of(final(self).rel_groups()).memids@ == deltas(
                members@.map_values(|m: (String, i64, RelMemberType)| m.1),
            ),
            last_of(final(self).rel_groups()).types@ == members@.map_values(
                |m: (String, i64, RelMemberType)| member_code(m.2),
            ),
            final(self).node_groups() == old(self).node_groups(),
            final(self).way_groups() == old(self).way_groups(),
            final(self).bbox_spec() == old(self).bbox_spec(),
    {
        let (keys, vals) = self.add_tags(&tags);
        let ghost tagged = *self;
        let ghost kv = (keys@, vals@);
        let (roles_sid, memids, types) = self.add_members(&members);
        let ghost membered = *self;
        let ghost rv = roles_sid@;
        let rel = EncRelation { id, keys, vals, roles_sid, memids, types };
        let ghost mid = *self;
        let ghost x = rel;
        push_packed(&mut self.rels, rel, self.max_group_size);
        proof {
            lemma_pack_last(mid.rel_groups(), x, self.max_group_size);
            assert(tagged.tags_stored(kv.0, kv.1, tags@));
            assert forall|j: int| 0 <= j < tags@.len() implies #[trigger] membered.strings_spec().entries()[kv.0[j] as int]
                == encode_utf8(tags@[j].0@) by {
                assert(tagged.strings_spec().entries()[kv.0[j] as int] == encode_utf8(tags@[j].0@));
            }
            assert forall|j: int| 0 <= j < tags@.len() implies #[trigger] membered.strings_spec().entries()[kv.1[j] as int]
                == encode_utf8(tags@[j].1@) by {
                assert(tagged.strings_spec().entries()[kv.1[j] as int] == encode_utf8(tags@[j].1@));
            }
            assert(membered.tags_stored(kv.0, kv.1, tags@));
            assert(x.keys@ == kv.0 && x.vals@ == kv.1 && x.roles_sid@ == rv);
            assert(self.strings_spec() == membered.strings_spec());
            assert(last_of(self.rel_groups()) == x);
            lemma_rels_valid_pack(mid.rel_groups(), x, self.max_group_size, self.string_count());
            assert(self.node_groups() == membered.node_groups());
            assert(self.way_groups() == membered.way_groups());
            assert(membered.indices_valid());
            assert(self.string_count() == membered.string_count());
            assert(self.indices_valid());
            assert forall|k: int| 0 <= k < old(self).string_count() implies #[trigger] self.strings_spec().entries()[k]
                == old(self).strings_spec().entries()[k] by {
                assert(tagged.strings_spec().entries()[k] == old(self).strings_spec().entries()[k]);
            }
        }
    }

    /// The `PrimitiveBlock` message of this block under the final string
    /// table `table` and index map `map`: the string table (1), the node
    /// groups, then the way groups, then the relation groups (2), and the
    /// settings that were given (17 to 20).
    pub open spec fn block_message(&self, table: Seq<Seq<u8>>, map: Seq<usize>) -> Seq<u8> {
        bytes_field(1, string_table_message(table)) + embedded(
            2,
            self.node_groups().map_values(|g: Seq<EncNode>| node_group_message(g, map)),
        ) + embedded(2, self.way_groups().map_values(|g: Seq<EncWay>| way_group_message(g, map)))
            + embedded(
            2,
            self.rel_groups().map_values(|g: Seq<EncRelation>| rel_group_message(g, map)),
        ) + opt_i32_field(17, self.options_spec().granularity) + opt_i32_field(
            18,
            self.options_spec().date_granularity,
        ) + opt_i64_field(19, self.options_spec().lat_offset) + opt_i64_field(
            20,
            self.options_spec().lon_offset,
        )
    }

    /// Finishes the block: sorts the string table, takes every stored
    /// string index to its final place, and frames the `PrimitiveBlock`
    /// message as an uncompressed `OSMData` blob.
    pub fn finalize(self) -> (r: Result<Vec<u8>, BlobError>)
        requires
            self.wf(),
        ensures
            exists|table: Seq<Seq<u8>>, map: Seq<usize>|
                {
                    &&& self.strings_spec().finalized_as(table, map)
                    &&& framed(encode_utf8("OSMData"@), self.block_message(table, map), r)
                },
    {
        let ghost start = self;
        let PrimitiveBlock {
            max_group_size: _,
            options,
            bbox: _,
            strings,
            granularity: _,
            date_granularity: _,
            lat_offset: _,
            lon_offset: _,
            nodes,
            ways,
            rels,
        } = self;
        let (table, map) = strings.finalize();
        assert(nodes_valid(group_seqs(nodes@), map@.len()));
        assert(ways_valid(group_seqs(ways@), map@.len()));
        assert(rels_valid(group_seqs(rels@), map@.len()));
        let ghost tv = table@.map_values(|v: Vec<u8>| v@);
        let mut raw: Vec<u8> = Vec::new();
        let st = encode_string_table(&table);
        put_bytes_field(&mut raw, 1, st.as_slice());
        put_node_groups(&mut raw, &nodes, &map);
        put_way_groups(&mut raw, &ways, &map);
        put_rel_groups(&mut raw, &rels, &map);
        if let Some(v) = options.granularity {
            put_uint_field(&mut raw, 17, v as u64);
        }
        if let Some(v) = options.date_granularity {
            put_uint_field(&mut raw, 18, v as u64);
        }
        if let Some(v) = options.lat_offset {
            put_uint_field(&mut raw, 19, v as u64);
        }
        if let Some(v) = options.lon_offset {
            put_uint_field(&mut raw, 20, v as u64);
        }
        assert(raw@ =~= start.block_message(tv, map@));
        let r = create_blob(raw.as_slice(), "OSMData");
        assert(start.strings_spec().finalized_as(tv, map@));
        r
    }
}

/// Stored string indices survive `finalize`: an index stored in a block,
/// taken through the final index map, names in the final table the very
/// string it named while the block was built.
pub proof fn lemma_stored_strings_resolve(
    b: PrimitiveBlock,
    table: Seq<Seq<u8>>,
    map: Seq<usize>,
    ks: Seq<u32>,
)
    requires
        b.wf(),
        b.strings_spec().finalized_as(table, map),
        indices_below(ks, b.string_count()),
    ensures
        forall|j: int|
            0 <= j < ks.len() ==> #[trigger] remap(ks, map)[j] < table.len() && table[remap(
                ks,
                map,
            )[j] as int] == b.string_at(ks[j]),
{
    assert forall|j: int| 0 <= j < ks.len() implies #[trigger] remap(ks, map)[j] < table.len()
        && table[remap(ks, map)[j] as int] == b.string_at(ks[j]) by {
        let t = ks[j] as int;
        b.strings_spec().lemma_wf_facts();
        assert(map[t] < table.len());
        assert(remap(ks, map)[j] == map[t] as u32);
        assert(table[map[t] as int] == b.strings_spec().entries()[t]);
    }
}

/// Coordinates survive quantization within one granularity: decoding the
/// stored value `q` as `offset + granularity * q` gives back the coordinate
/// less than `granularity` nanodegrees off, and exactly when `granularity`
/// divides the coordinate's distance from `offset`.
pub proof fn lemma_quantize_round_trip(v: i64, offset: i64, granularity: i32)
    requires
        granularity > 0,
        offset_fits(v, offset),
    ensures
        -granularity < v - (offset + granularity * quantize(v, offset, granularity)) < granularity,
        (v - offset) % (granularity as int) == 0 ==> offset + granularity * quantize(
            v,
            offset,
            granularity,
        ) == v,
{
    let d: int = v - offset;
    let g: int = granularity as int;
    let q = quantize(v, offset, granularity);
    if d >= 0 {
        assert(q == d / g);
        vstd::arithmetic::div_mod::lemma_fundamental_div_mod(d, g);
        assert(d == g * (d / g) + d % g);
        assert(0 <= d % g < g) by {
            vstd::arithmetic::div_mod::lemma_mod_bound(d, g);
        }
    } else {
        let e: int = -d;
        assert(q == -(e / g));
        vstd::arithmetic::div_mod::lemma_fundamental_div_mod(e, g);
        assert(0 <= e % g < g) by {
            vstd::arithmetic::div_mod::lemma_mod_bound(e, g);
        }
        assert(g * q == -(g * (e / g))) by (nonlinear_arith)
            requires q == -(e / g);
        if d % g == 0 {
            vstd::arithmetic::div_mod::lemma_fundamental_div_mod(d, g);
            assert(d == g * (d / g));
            assert(e == g * (-(d / g))) by (nonlinear_arith)
                requires e == -d, d == g * (d / g);
            vstd::arithmetic::div_mod::lemma_div_multiples_vanish(-(d / g), g);
            assert(e % g == 0) by {
                vstd::arithmetic::div_mod::lemma_mod_multiples_basic(-(d / g), g);
            }
        }
    }
}

} // verus!
