//! The inventory data model: identifiers, money, platforms, listings, items,
//! and the inventory itself.

use vstd::prelude::*;

verus! {

use vstd::utf8::encode_utf8;

use crate::ext::random_u32;

/// Key under which an item is stored, globally unique by random generation;
/// the collision probability is accepted as negligible and never checked.
#[derive(Clone, Copy, PartialEq, Eq, Structural, Hash, Debug)]
pub struct Id(pub u32);

impl Id {
    /// Draws a fresh identifier at random; no promise beyond that.
    pub fn new() -> Id {
        Id(random_u32())
    }
}

/// Fixed-point currency in integer cents ($5.46 is `Usd(546)`).
#[derive(Clone, Copy, PartialEq, Eq, Structural, Debug)]
pub struct Usd(pub u32);

/// Index into an inventory's platform name list. The listings table has a
/// hard capacity of eight slots, so a platform index is always below eight.
#[derive(Clone, Copy, PartialEq, Eq, Structural, Debug)]
pub struct Platform(u8);

impl Platform {
    #[verifier::type_invariant]
    spec fn bounded(self) -> bool {
        self.0 < 8
    }

    /// The slot this platform occupies in a listings table.
    pub closed spec fn idx(self) -> u8 {
        self.0
    }

    /// Accepts exactly the indices a listings table can hold.
    pub fn from_idx(idx: u8) -> (r: Option<Platform>)
        ensures
            r is Some <==> idx < 8,
            r matches Some(p) ==> p.idx() == idx,
    {
        if idx >= 8 {
            None
        } else {
            Some(Platform(idx))
        }
    }

    pub fn as_idx(&self) -> (r: u8)
        ensures
            r == self.idx(),
            r < 8,
    {
        proof {
            use_type_invariant(self);
        }
        self.0
    }
}

/// One occupied slot of a listings table: when the item was listed there
/// (seconds since the epoch) and how many units it has sold there.
#[derive(Clone, Copy, PartialEq, Eq, Structural, Debug)]
pub struct Listing {
    pub date: u64,
    pub sold: u32,
}

impl Listing {
    /// A fresh listing made at the given time, with nothing sold yet.
    pub fn new(date: u64) -> (r: Listing)
        ensures
            r == (Listing { date, sold: 0 }),
    {
        Listing { date, sold: 0 }
    }
}

/// How many of the first `i` slots are occupied.
pub open spec fn spec_count_present(s: Seq<Option<Listing>>, i: int) -> int
    decreases i,
{
    if i <= 0 {
        0
    } else {
        spec_count_present(s, i - 1) + if s[i - 1] is Some {
            1int
        } else {
            0int
        }
    }
}

/// Units sold over the first `i` slots, as an unbounded integer.
pub open spec fn spec_sold_sum(s: Seq<Option<Listing>>, i: int) -> int
    decreases i,
{
    if i <= 0 {
        0
    } else {
        spec_sold_sum(s, i - 1) + match s[i - 1] {
            Some(l) => l.sold as int,
            None => 0,
        }
    }
}

/// Per-platform listings table: one optional slot for each of the eight
/// supported platform indices.
#[derive(Clone, Copy, PartialEq, Eq, Debug)]
pub struct Listings(pub [Option<Listing>; 8]);

impl Listings {
    /// A table with every slot empty.
    pub fn empty() -> (r: Listings)
        ensures
            r.0@ == Seq::new(8, |i: int| Option::<Listing>::None),
    {
        let r = Listings([None, None, None, None, None, None, None, None]);
        proof {
            assert(r.0@ =~= Seq::new(8, |i: int| Option::<Listing>::None));
        }
        r
    }

    /// How many platforms this item is currently listed on.
    pub fn count(&self) -> (r: u8)
        ensures
            r == spec_count_present(self.0@, 8),
    {
        let mut n: u8 = 0;
        let mut i: usize = 0;
        while i < 8
            invariant
                i <= 8,
                n == spec_count_present(self.0@, i as int),
                n <= i,
            decreases 8 - i,
        {
            if self.0[i].is_some() {
                n = n + 1;
            }
            i = i + 1;
        }
        n
    }

    /// Total units sold across all platforms.
    pub fn total_sold(&self) -> (r: u32)
        requires
            spec_sold_sum(self.0@, 8) <= u32::MAX,
        ensures
            r == spec_sold_sum(self.0@, 8),
    {
        let mut n: u32 = 0;
        let mut i: usize = 0;
        while i < 8
            invariant
                i <= 8,
                n == spec_sold_sum(self.0@, i as int),
                spec_sold_sum(self.0@, 8) <= u32::MAX,
            decreases 8 - i,
        {
            proof {
                lemma_sold_sum_bound(self.0@, i as int + 1, 8);
            }
            match self.0[i] {
                Some(l) => n = n + l.sold,
                None => (),
            }
            i = i + 1;
        }
        n
    }

    /// Whether the item is listed on the given platform.
    pub fn contains_platform(&self, platform: Platform) -> (r: bool)
        ensures
            r == self.0@[platform.idx() as int] is Some,
    {
        self.0[platform.as_idx() as usize].is_some()
    }

    /// Records a fresh listing, made at the given time, in the platform's
    /// slot, replacing whatever the slot held.
    pub fn add_listing(&mut self, platform: Platform, date: u64)
        ensures
            final(self).0@ == old(self).0@.update(
                platform.idx() as int,
                Some(Listing { date, sold: 0 }),
            ),
    {
        self.0[platform.as_idx() as usize] = Some(Listing::new(date));
    }
}

/// The sums grow monotonically with the slot count, so any partial sum is
/// bounded by the total.
proof fn lemma_sold_sum_bound(s: Seq<Option<Listing>>, i: int, j: int)
    requires
        0 <= i <= j,
    ensures
        spec_sold_sum(s, i) <= spec_sold_sum(s, j),
    decreases j - i,
{
    if i < j {
        lemma_sold_sum_bound(s, i, j - 1);
    }
}

/// Raw embedded picture: ARGB, one byte per channel, `size` is width and
/// height in pixels.
#[derive(Clone, PartialEq, Eq, Debug)]
pub struct Picture {
    pub data: Vec<u8>,
    pub size: [u32; 2],
}

/// Mathematical image of a [`Picture`].
#[verifier::ext_equal]
pub struct PictureV {
    pub data: Seq<u8>,
    pub width: u32,
    pub height: u32,
}

/// The image of an optional picture.
pub open spec fn spec_opt_pic_view(x: Option<Picture>) -> Option<PictureV> {
    match x {
        Some(p) => Some(p@),
        None => None,
    }
}

impl View for Picture {
    type V = PictureV;

    open spec fn view(&self) -> PictureV {
        PictureV { data: self.data@, width: self.size@[0], height: self.size@[1] }
    }
}

/// One inventory record. Weights and dimensions are carried as the bit
/// patterns of IEEE-754 single-precision numbers; the core never computes on
/// them, it only stores and transports them.
#[derive(PartialEq, Debug)]
pub struct Item {
    // Inventory properties
    pub creation_date: u64,
    pub location: String,
    pub listings: Listings,
    pub picture: Option<Picture>,
    // Item details
    pub name: String,
    pub desc: String,
    pub count: u32,
    pub est_cost: Usd,
    pub condition: String,
    pub color: String,
    pub dimensions: [u32; 3],
    pub weight: u32,
    pub shipping_weight: u32,
    pub model_no: u64,
    pub serial_no: u64,
    pub brand: String,
}

/// Mathematical image of an [`Item`].
#[verifier::ext_equal]
pub struct ItemV {
    pub creation_date: u64,
    pub location: Seq<char>,
    pub listings: Seq<Option<Listing>>,
    pub picture: Option<PictureV>,
    pub name: Seq<char>,
    pub desc: Seq<char>,
    pub count: u32,
    pub est_cost: u32,
    pub condition: Seq<char>,
    pub color: Seq<char>,
    pub dimensions: Seq<u32>,
    pub weight: u32,
    pub shipping_weight: u32,
    pub model_no: u64,
    pub serial_no: u64,
    pub brand: Seq<char>,
}

impl View for Item {
    type V = ItemV;

    open spec fn view(&self) -> ItemV {
        ItemV {
            creation_date: self.creation_date,
            location: self.location@,
            listings: self.listings.0@,
            picture: match self.picture {
                Some(p) => Some(p@),
                None => None,
            },
            name: self.name@,
            desc: self.desc@,
            count: self.count,
            est_cost: self.est_cost.0,
            condition: self.condition@,
            color: self.color@,
            dimensions: self.dimensions@,
            weight: self.weight,
            shipping_weight: self.shipping_weight,
            model_no: self.model_no,
            serial_no: self.serial_no,
            brand: self.brand@,
        }
    }
}

impl Item {
    /// A blank record created at the given time: one unit on hand, everything
    /// else empty or zero.
    pub fn new(created: u64) -> (r: Item)
        ensures
            r@ == (ItemV {
                creation_date: created,
                location: Seq::<char>::empty(),
                listings: Seq::new(8, |i: int| Option::<Listing>::None),
                picture: None,
                name: Seq::<char>::empty(),
                desc: Seq::<char>::empty(),
                count: 1,
                est_cost: 0,
                condition: Seq::<char>::empty(),
                color: Seq::<char>::empty(),
                dimensions: seq![0u32, 0u32, 0u32],
                weight: 0,
                shipping_weight: 0,
                model_no: 0,
                serial_no: 0,
                brand: Seq::<char>::empty(),
            }),
    {
        let r = Item {
            creation_date: created,
            location: String::new(),
            listings: Listings::empty(),
            picture: None,
            name: String::new(),
            desc: String::new(),
            count: 1,
            est_cost: Usd(0),
            condition: String::new(),
            color: String::new(),
            dimensions: [0, 0, 0],
            weight: 0,
            shipping_weight: 0,
            model_no: 0,
            serial_no: 0,
            brand: String::new(),
        };
        proof {
            assert(r.dimensions@ =~= seq![0u32, 0u32, 0u32]);
        }
        r
    }

    /// A copy of this record whose provenance is reset: the duplicate is
    /// "created" at the given time, everything else carries over.
    pub fn duplicate(&self, now: u64) -> (r: Item)
        ensures
            r@ == (ItemV { creation_date: now, ..self@ }),
    {
        Item {
            creation_date: now,
            location: clone_string(&self.location),
            listings: self.listings,
            picture: match &self.picture {
                Some(p) => Some(Picture { data: clone_bytes(&p.data), size: p.size }),
                None => None,
            },
            name: clone_string(&self.name),
            desc: clone_string(&self.desc),
            count: self.count,
            est_cost: self.est_cost,
            condition: clone_string(&self.condition),
            color: clone_string(&self.color),
            dimensions: self.dimensions,
            weight: self.weight,
            shipping_weight: self.shipping_weight,
            model_no: self.model_no,
            serial_no: self.serial_no,
            brand: clone_string(&self.brand),
        }
    }

    /// Total units sold across this item's listings.
    pub fn sold_count(&self) -> (r: u32)
        requires
            spec_sold_sum(self.listings.0@, 8) <= u32::MAX,
        ensures
            r == spec_sold_sum(self.listings.0@, 8),
    {
        self.listings.total_sold()
    }
}

/// The whole inventory: the platform name list and the item table. This is
/// the unit exchanged wholesale between client and server.
#[derive(PartialEq, Debug)]
pub struct Inv {
    pub platform_names: Vec<String>,
    pub items: ItemMap,
}

/// Mathematical image of an [`Inv`]: the names, and the item entries in
/// storage order (their mapping is [`map_of`] of the entry sequence).
#[verifier::ext_equal]
pub struct InvV {
    pub platform_names: Seq<Seq<char>>,
    pub items: Seq<(Id, ItemV)>,
}

impl InvV {
    /// The identifier-to-item mapping the inventory denotes.
    pub open spec fn items_map(self) -> Map<Id, ItemV> {
        map_of(self.items)
    }
}

impl View for Inv {
    type V = InvV;

    open spec fn view(&self) -> InvV {
        InvV {
            platform_names: Seq::new(
                self.platform_names@.len(),
                |i: int| self.platform_names@[i]@,
            ),
            items: self.items.seq_view(),
        }
    }
}

impl Inv {
    /// An inventory with no platforms and no items.
    pub fn new() -> (r: Inv)
        ensures
            r@.platform_names == Seq::<Seq<char>>::empty(),
            r@.items == Seq::<(Id, ItemV)>::empty(),
            r@.items_map() == Map::<Id, ItemV>::empty(),
    {
        let r = Inv { platform_names: Vec::new(), items: ItemMap::new() };
        proof {
            assert(r@.platform_names =~= Seq::<Seq<char>>::empty());
        }
        r
    }

    /// The display name of a platform index; the index must be backed by the
    /// name list.
    pub fn get_platform_name(&self, platform: Platform) -> (r: &String)
        requires
            platform.idx() < self@.platform_names.len(),
        ensures
            r@ == self@.platform_names[platform.idx() as int],
    {
        &self.platform_names[platform.as_idx() as usize]
    }

    /// The distinct non-empty locations of the stored items, sorted in
    /// ascending byte order of their UTF-8 form, each exactly once.
    pub fn all_locations(&self) -> (r: Vec<String>)
        ensures
            forall|i: int, j: int|
                0 <= i < j < r@.len() ==> bytes_lt(
                    encode_utf8((#[trigger] r@[i])@),
                    encode_utf8((#[trigger] r@[j])@),
                ),
            forall|i: int|
                0 <= i < r@.len() ==> (#[trigger] r@[i])@.len() != 0 && spec_has_location(
                    self@.items,
                    r@[i]@,
                ),
            forall|s: Seq<char>|
                (s.len() != 0 && #[trigger] spec_has_location(self@.items, s)) ==> seq_contains_view(
                    r@,
                    s,
                ),
    {
        let ghost items = self@.items;
        let mut out: Vec<String> = Vec::new();
        let n = self.items.len();
        let mut k: usize = 0;
        while k < n
            invariant
                k <= n,
                n == items.len(),
                items == self@.items,
                forall|i: int, j: int|
                    0 <= i < j < out@.len() ==> bytes_lt(
                        encode_utf8((#[trigger] out@[i])@),
                        encode_utf8((#[trigger] out@[j])@),
                    ),
                forall|i: int|
                    0 <= i < out@.len() ==> (#[trigger] out@[i])@.len() != 0 && spec_has_location(
                        items,
                        out@[i]@,
                    ),
                forall|s: Seq<char>|
                    (s.len() != 0 && #[trigger] spec_has_location(items.take(k as int), s))
                        ==> seq_contains_view(out@, s),
            decreases n - k,
        {
            let entry = self.items.entry_at(k);
            let loc: &String = &entry.1.location;
            let ghost lv = loc@;
            proof {
                assert(items.take(k as int + 1).drop_last() =~= items.take(k as int));
            }
            if !loc.as_str().is_empty() {
                proof {
                    assert(items[k as int].1.location == lv);
                    assert(spec_has_location(items, lv));
                }
                let j = sorted_position(&out, loc);
                let dup = j < out.len() && out[j].eq(loc);
                if !dup {
                    let ghost before = out@;
                    out.insert(j, clone_string(loc));
                    proof {
                        assert(out@ == before.insert(j as int, out@[j as int]));
                        assert(out@[j as int]@ == lv);
                        assert forall|x: int, y: int|
                            0 <= x < y < out@.len() implies bytes_lt(
                            encode_utf8((#[trigger] out@[x])@),
                            encode_utf8((#[trigger] out@[y])@),
                        ) by {
                            let xo = if x < j as int {
                                x
                            } else {
                                x - 1
                            };
                            let yo = if y < j as int {
                                y
                            } else {
                                y - 1
                            };
                            if x == j as int || y == j as int {
                                if j < before.len() {
                                    assert(!bytes_lt(encode_utf8(before[j as int]@), encode_utf8(lv)));
                                    if !bytes_lt(encode_utf8(lv), encode_utf8(before[j as int]@)) {
                                        lemma_bytes_lt_connected(
                                            encode_utf8(lv),
                                            encode_utf8(before[j as int]@),
                                        );
                                        lemma_encode_utf8_injective(lv, before[j as int]@);
                                        assert(false);
                                    }
                                }
                                if y == j as int {
                                    assert(out@[x] == before[x]);
                                    assert(bytes_lt(encode_utf8(before[x]@), encode_utf8(lv)));
                                } else {
                                    assert(x == j as int);
                                    assert(out@[y] == before[y - 1]);
                                    if y - 1 > j as int {
                                        assert(bytes_lt(
                                            encode_utf8(before[j as int]@),
                                            encode_utf8(before[y - 1]@),
                                        ));
                                        lemma_bytes_lt_trans(
                                            encode_utf8(lv),
                                            encode_utf8(before[j as int]@),
                                            encode_utf8(before[y - 1]@),
                                        );
                                    }
                                }
                            } else {
                                assert(out@[x] == before[xo]);
                                assert(out@[y] == before[yo]);
                                assert(bytes_lt(encode_utf8(before[xo]@), encode_utf8(before[yo]@)));
                            }
                        }
                        assert forall|i: int|
                            0 <= i < out@.len() implies (#[trigger] out@[i])@.len() != 0
                            && spec_has_location(items, out@[i]@) by {
                            if i != j as int {
                                let io = if i < j as int {
                                    i
                                } else {
                                    i - 1
                                };
                                assert(out@[i] == before[io]);
                            }
                        }
                        assert forall|s: Seq<char>|
                            (s.len() != 0 && #[trigger] spec_has_location(
                                items.take(k as int + 1),
                                s,
                            )) implies seq_contains_view(out@, s) by {
                            let w = choose|w: int|
                                0 <= w < items.take(k as int + 1).len() && (#[trigger] items.take(
                                    k as int + 1,
                                )[w]).1.location == s;
                            if w < k as int {
                                assert(items.take(k as int)[w].1.location == s);
                                assert(spec_has_location(items.take(k as int), s));
                                let i = choose|i: int|
                                    0 <= i < before.len() && (#[trigger] before[i])@ == s;
                                let io = if i < j as int {
                                    i
                                } else {
                                    i + 1
                                };
                                assert(out@[io]@ == s);
                            } else {
                                assert(s == lv);
                                assert(out@[j as int]@ == s);
                            }
                        }
                    }
                } else {
                    proof {
                        assert(out@[j as int]@ == lv);
                        assert forall|s: Seq<char>|
                            (s.len() != 0 && #[trigger] spec_has_location(
                                items.take(k as int + 1),
                                s,
                            )) implies seq_contains_view(out@, s) by {
                            let w = choose|w: int|
                                0 <= w < items.take(k as int + 1).len() && (#[trigger] items.take(
                                    k as int + 1,
                                )[w]).1.location == s;
                            if w < k as int {
                                assert(items.take(k as int)[w].1.location == s);
                                assert(spec_has_location(items.take(k as int), s));
                            } else {
                                assert(s == lv);
                                assert(out@[j as int]@ == s);
                            }
                        }
                    }
                }
            } else {
                proof {
                    assert forall|s: Seq<char>|
                        (s.len() != 0 && #[trigger] spec_has_location(
                            items.take(k as int + 1),
                            s,
                        )) implies seq_contains_view(out@, s) by {
                        let w = choose|w: int|
                            0 <= w < items.take(k as int + 1).len() && (#[trigger] items.take(
                                k as int + 1,
                            )[w]).1.location == s;
                        if w < k as int {
                            assert(items.take(k as int)[w].1.location == s);
                            assert(spec_has_location(items.take(k as int), s));
                        } else {
                            assert(s == lv);
                        }
                    }
                }
            }
            k = k + 1;
        }
        proof {
            assert(items.take(n as int) =~= items);
        }
        out
    }

    /// Number of platform names the inventory knows.
    pub fn platform_count(&self) -> (r: usize)
        ensures
            r == self@.platform_names.len(),
    {
        self.platform_names.len()
    }

    /// Number of items held.
    pub fn item_count(&self) -> (r: usize)
        ensures
            r == self@.items.len(),
            r == self@.items_map().dom().len(),
            self@.items_map().dom().finite(),
    {
        self.items.len()
    }
}

impl Default for Inv {
    /// The empty inventory.
    fn default() -> (r: Inv)
        ensures
            r@.platform_names == Seq::<Seq<char>>::empty(),
            r@.items == Seq::<(Id, ItemV)>::empty(),
            r@.items_map() == Map::<Id, ItemV>::empty(),
    {
        Inv::new()
    }
}

/// Byte-lexicographic strict order, the order strings sort in.
pub open spec fn bytes_lt(a: Seq<u8>, b: Seq<u8>) -> bool
    decreases a.len(),
{
    if b.len() == 0 {
        false
    } else if a.len() == 0 {
        true
    } else if a[0] != b[0] {
        a[0] < b[0]
    } else {
        bytes_lt(a.drop_first(), b.drop_first())
    }
}

/// Two byte strings neither of which precedes the other are equal.
pub proof fn lemma_bytes_lt_connected(a: Seq<u8>, b: Seq<u8>)
    requires
        !bytes_lt(a, b),
        !bytes_lt(b, a),
    ensures
        a == b,
    decreases a.len(),
{
    if b.len() == 0 {
        assert(a =~= b);
    } else if a.len() == 0 {
    } else if a[0] != b[0] {
    } else {
        lemma_bytes_lt_connected(a.drop_first(), b.drop_first());
        assert(a =~= seq![a[0]] + a.drop_first());
        assert(b =~= seq![b[0]] + b.drop_first());
    }
}

/// The byte order chains.
pub proof fn lemma_bytes_lt_trans(a: Seq<u8>, b: Seq<u8>, c: Seq<u8>)
    requires
        bytes_lt(a, b),
        bytes_lt(b, c),
    ensures
        bytes_lt(a, c),
    decreases a.len(),
{
    if a.len() == 0 {
    } else {
        if a[0] == b[0] && b[0] == c[0] {
            lemma_bytes_lt_trans(a.drop_first(), b.drop_first(), c.drop_first());
        }
    }
}

/// Compares the tails of two byte strings from position `i` on.
fn bytes_lt_from(a: &[u8], b: &[u8], i: usize) -> (r: bool)
    requires
        i <= a@.len(),
        i <= b@.len(),
    ensures
        r == bytes_lt(a@.skip(i as int), b@.skip(i as int)),
    decreases a@.len() - i,
{
    if i == b.len() {
        proof {
            assert(b@.skip(i as int) =~= Seq::<u8>::empty());
        }
        false
    } else if i == a.len() {
        proof {
            assert(a@.skip(i as int) =~= Seq::<u8>::empty());
        }
        true
    } else if a[i] != b[i] {
        proof {
            assert(a@.skip(i as int)[0] == a@[i as int]);
            assert(b@.skip(i as int)[0] == b@[i as int]);
        }
        a[i] < b[i]
    } else {
        proof {
            assert(a@.skip(i as int)[0] == a@[i as int]);
            assert(b@.skip(i as int)[0] == b@[i as int]);
            assert(a@.skip(i as int).drop_first() =~= a@.skip(i as int + 1));
            assert(b@.skip(i as int).drop_first() =~= b@.skip(i as int + 1));
        }
        bytes_lt_from(a, b, i + 1)
    }
}

/// Whether `a` sorts strictly before `b`, comparing their UTF-8 bytes.
pub fn str_lt(a: &str, b: &str) -> (r: bool)
    ensures
        r == bytes_lt(encode_utf8(a@), encode_utf8(b@)),
{
    let ab = a.as_bytes();
    let bb = b.as_bytes();
    proof {
        assert(ab@.skip(0) =~= ab@);
        assert(bb@.skip(0) =~= bb@);
    }
    bytes_lt_from(ab, bb, 0)
}

/// Equal UTF-8 encodings spell equal text.
pub proof fn lemma_encode_utf8_injective(a: Seq<char>, b: Seq<char>)
    requires
        encode_utf8(a) == encode_utf8(b),
    ensures
        a == b,
{
    vstd::utf8::encode_utf8_decode_utf8(a);
    vstd::utf8::encode_utf8_decode_utf8(b);
}

/// Some stored item carries this location text.
pub open spec fn spec_has_location(items: Seq<(Id, ItemV)>, s: Seq<char>) -> bool {
    exists|k: int| 0 <= k < items.len() && (#[trigger] items[k]).1.location == s
}

/// Some string in the list spells this text.
pub open spec fn seq_contains_view(v: Seq<String>, s: Seq<char>) -> bool {
    exists|i: int| 0 <= i < v.len() && (#[trigger] v[i])@ == s
}

/// Index of the first list entry that does not sort strictly before `s`.
fn sorted_position(v: &Vec<String>, s: &String) -> (j: usize)
    ensures
        j <= v@.len(),
        forall|x: int|
            0 <= x < j ==> bytes_lt(encode_utf8((#[trigger] v@[x])@), encode_utf8(s@)),
        j < v@.len() ==> !bytes_lt(encode_utf8(v@[j as int]@), encode_utf8(s@)),
{
    let mut j: usize = 0;
    while j < v.len()
        invariant
            j <= v@.len(),
            forall|x: int|
                0 <= x < j ==> bytes_lt(encode_utf8((#[trigger] v@[x])@), encode_utf8(s@)),
        decreases v@.len() - j,
    {
        if !str_lt(v[j].as_str(), s.as_str()) {
            return j;
        }
        j = j + 1;
    }
    j
}

/// A clone of the string, pinned to keep the same characters.
pub fn clone_string(s: &String) -> (r: String)
    ensures
        r@ == s@,
{
    s.clone()
}

/// Mathematical image of an entry list.
pub open spec fn entries_seq_view(s: Seq<(Id, Item)>) -> Seq<(Id, ItemV)> {
    Seq::new(s.len(), |i: int| (s[i].0, s[i].1@))
}

/// No two entries share a key.
pub open spec fn keys_unique(s: Seq<(Id, ItemV)>) -> bool {
    forall|i: int, j: int| 0 <= i < j < s.len() ==> (#[trigger] s[i]).0 != (#[trigger] s[j]).0
}

/// Some entry carries the key.
pub open spec fn seq_has_key(s: Seq<(Id, ItemV)>, id: Id) -> bool {
    exists|i: int| 0 <= i < s.len() && (#[trigger] s[i]).0 == id
}

/// The mapping an entry sequence denotes; on a duplicated key the later entry
/// wins.
pub open spec fn map_of(s: Seq<(Id, ItemV)>) -> Map<Id, ItemV>
    decreases s.len(),
{
    if s.len() == 0 {
        Map::empty()
    } else {
        map_of(s.drop_last()).insert(s.last().0, s.last().1)
    }
}

/// The denoted mapping holds exactly the keys the sequence carries.
pub proof fn lemma_map_of_dom(s: Seq<(Id, ItemV)>)
    ensures
        forall|id: Id|
            #![trigger map_of(s).dom().contains(id)]
            #![trigger seq_has_key(s, id)]
            map_of(s).dom().contains(id) <==> seq_has_key(s, id),
    decreases s.len(),
{
    if s.len() > 0 {
        lemma_map_of_dom(s.drop_last());
        assert forall|id: Id| map_of(s).dom().contains(id) <==> seq_has_key(s, id) by {
            if map_of(s).dom().contains(id) {
                if id == s.last().0 {
                    assert(s[s.len() - 1].0 == id);
                } else {
                    assert(map_of(s.drop_last()).dom().contains(id));
                    assert(seq_has_key(s.drop_last(), id));
                    let i = choose|i: int|
                        0 <= i < s.drop_last().len() && (#[trigger] s.drop_last()[i]).0 == id;
                    assert(s.drop_last()[i] == s[i]);
                    assert(s[i].0 == id);
                }
            }
            if seq_has_key(s, id) {
                let i = choose|i: int| 0 <= i < s.len() && (#[trigger] s[i]).0 == id;
                if i < s.len() - 1 {
                    assert(s.drop_last()[i] == s[i]);
                    assert(seq_has_key(s.drop_last(), id));
                    assert(map_of(s.drop_last()).dom().contains(id));
                }
                assert(map_of(s).dom().contains(id));
            }
        }
    }
}

/// Under unique keys, each entry is what the denoted mapping returns.
pub proof fn lemma_map_of_get(s: Seq<(Id, ItemV)>, i: int)
    requires
        keys_unique(s),
        0 <= i < s.len(),
    ensures
        map_of(s).dom().contains(s[i].0),
        map_of(s)[s[i].0] == s[i].1,
    decreases s.len(),
{
    if i < s.len() - 1 {
        assert(keys_unique(s.drop_last()));
        assert(s.drop_last()[i] == s[i]);
        lemma_map_of_get(s.drop_last(), i);
        assert(s[i].0 != s.last().0);
    }
}

/// Appending a fresh entry inserts it into the denoted mapping.
pub proof fn lemma_map_of_push(s: Seq<(Id, ItemV)>, id: Id, v: ItemV)
    ensures
        map_of(s.push((id, v))) == map_of(s).insert(id, v),
{
    assert(s.push((id, v)).drop_last() =~= s);
    assert(s.push((id, v)).last() == (id, v));
}

/// Overwriting the entry that carries a key updates the denoted mapping at
/// that key.
pub proof fn lemma_map_of_update(s: Seq<(Id, ItemV)>, i: int, v: ItemV)
    requires
        keys_unique(s),
        0 <= i < s.len(),
    ensures
        map_of(s.update(i, (s[i].0, v))) == map_of(s).insert(s[i].0, v),
    decreases s.len(),
{
    let id = s[i].0;
    let t = s.update(i, (id, v));
    if i == s.len() - 1 {
        assert(t.drop_last() =~= s.drop_last());
        assert(t.last() == (id, v));
        assert(map_of(s.drop_last()).insert(id, s.last().1).insert(id, v) =~= map_of(
            s.drop_last(),
        ).insert(id, v));
    } else {
        assert(keys_unique(s.drop_last()));
        assert(s.drop_last()[i] == s[i]);
        lemma_map_of_update(s.drop_last(), i, v);
        assert(t.drop_last() =~= s.drop_last().update(i, (id, v)));
        assert(t.last() == s.last());
        assert(id != s.last().0);
        assert(map_of(s.drop_last()).insert(id, v).insert(s.last().0, s.last().1) =~= map_of(
            s.drop_last(),
        ).insert(s.last().0, s.last().1).insert(id, v));
    }
}

/// Dropping the entry that carries a key removes that key from the denoted
/// mapping.
pub proof fn lemma_map_of_remove(s: Seq<(Id, ItemV)>, i: int)
    requires
        keys_unique(s),
        0 <= i < s.len(),
    ensures
        map_of(s.remove(i)) == map_of(s).remove(s[i].0),
    decreases s.len(),
{
    let id = s[i].0;
    if i == s.len() - 1 {
        assert(s.remove(i) =~= s.drop_last());
        lemma_map_of_dom(s.drop_last());
        assert(keys_unique(s.drop_last()));
        assert forall|j: int| 0 <= j < s.drop_last().len() implies (#[trigger] s.drop_last()[j]).0
            != id by {
            assert(s[j] == s.drop_last()[j]);
        }
        assert(!seq_has_key(s.drop_last(), id));
        assert(!map_of(s.drop_last()).dom().contains(id));
        assert(map_of(s.drop_last()).insert(id, s.last().1).remove(id) =~= map_of(s.drop_last()));
    } else {
        assert(keys_unique(s.drop_last()));
        assert(s.drop_last()[i] == s[i]);
        lemma_map_of_remove(s.drop_last(), i);
        assert(s.remove(i).drop_last() =~= s.drop_last().remove(i));
        assert(s.remove(i).last() == s.last());
        assert(s.remove(i).len() == s.len() - 1 > 0);
        assert(id != s.last().0);
        assert(map_of(s.drop_last()).remove(id).insert(s.last().0, s.last().1) =~= map_of(
            s.drop_last(),
        ).insert(s.last().0, s.last().1).remove(id));
    }
}

/// Under unique keys the denoted mapping has exactly one slot per entry.
pub proof fn lemma_map_of_card(s: Seq<(Id, ItemV)>)
    requires
        keys_unique(s),
    ensures
        map_of(s).dom().finite(),
        map_of(s).dom().len() == s.len(),
    decreases s.len(),
{
    if s.len() > 0 {
        assert(keys_unique(s.drop_last()));
        lemma_map_of_card(s.drop_last());
        lemma_map_of_dom(s.drop_last());
        let id = s.last().0;
        assert forall|j: int| 0 <= j < s.drop_last().len() implies (#[trigger] s.drop_last()[j]).0
            != id by {
            assert(s[j] == s.drop_last()[j]);
        }
        assert(!seq_has_key(s.drop_last(), id));
        assert(!map_of(s.drop_last()).dom().contains(id));
        assert(map_of(s).dom() =~= map_of(s.drop_last()).dom().insert(id));
    }
}

/// The inventory's item table: an identifier-keyed mapping with a
/// deterministic entry order, so that one table has exactly one encoding.
#[derive(PartialEq, Debug)]
pub struct ItemMap {
    entries: Vec<(Id, Item)>,
}

impl View for ItemMap {
    type V = Map<Id, ItemV>;

    open spec fn view(&self) -> Map<Id, ItemV> {
        map_of(self.seq_view())
    }
}

impl ItemMap {
    /// The table's entries in storage order.
    pub closed spec fn seq_view(self) -> Seq<(Id, ItemV)> {
        Seq::new(self.entries@.len(), |i: int| (self.entries@[i].0, self.entries@[i].1@))
    }

    #[verifier::type_invariant]
    pub(crate) open spec fn wf(self) -> bool {
        keys_unique(self.seq_view())
    }

    /// An empty table.
    pub fn new() -> (r: ItemMap)
        ensures
            r@ == Map::<Id, ItemV>::empty(),
            r.seq_view() == Seq::<(Id, ItemV)>::empty(),
    {
        let r = ItemMap { entries: Vec::new() };
        proof {
            assert(r.seq_view() =~= Seq::<(Id, ItemV)>::empty());
        }
        r
    }

    /// Number of items held.
    pub fn len(&self) -> (r: usize)
        ensures
            r == self.seq_view().len(),
            r == self@.dom().len(),
            self@.dom().finite(),
    {
        proof {
            use_type_invariant(self);
            lemma_map_of_card(self.seq_view());
        }
        self.entries.len()
    }

    /// Index of the entry that carries the key, if any.
    fn find_idx(&self, id: Id) -> (r: Option<usize>)
        ensures
            match r {
                Some(i) => i < self.seq_view().len() && self.seq_view()[i as int].0 == id,
                None => !seq_has_key(self.seq_view(), id),
            },
    {
        let mut i: usize = 0;
        while i < self.entries.len()
            invariant
                i <= self.entries.len(),
                forall|j: int| 0 <= j < i ==> (#[trigger] self.seq_view()[j]).0 != id,
            decreases self.entries.len() - i,
        {
            if self.entries[i].0 == id {
                return Some(i);
            }
            i = i + 1;
        }
        None
    }

    /// Whether an item is stored under the key.
    pub fn contains_key(&self, id: Id) -> (r: bool)
        ensures
            r == self@.dom().contains(id),
    {
        proof {
            use_type_invariant(self);
            lemma_map_of_dom(self.seq_view());
        }
        match self.find_idx(id) {
            Some(i) => {
                proof {
                    assert(seq_has_key(self.seq_view(), id));
                }
                true
            },
            None => false,
        }
    }

    /// The item stored under the key, if any.
    pub fn get(&self, id: Id) -> (r: Option<&Item>)
        ensures
            match r {
                Some(item) => self@.dom().contains(id) && item@ == self@[id],
                None => !self@.dom().contains(id),
            },
    {
        proof {
            use_type_invariant(self);
            lemma_map_of_dom(self.seq_view());
        }
        match self.find_idx(id) {
            Some(i) => {
                proof {
                    lemma_map_of_get(self.seq_view(), i as int);
                }
                Some(&self.entries[i].1)
            },
            None => None,
        }
    }

    /// Stores the item under the key, replacing what the key held.
    pub fn insert(&mut self, id: Id, item: Item)
        ensures
            final(self)@ == old(self)@.insert(id, item@),
            !old(self)@.dom().contains(id) ==> final(self).seq_view() == old(
                self,
            ).seq_view().push((id, item@)),
            old(self)@.dom().contains(id) ==> final(self).seq_view().len() == old(
                self,
            ).seq_view().len(),
    {
        proof {
            use_type_invariant(&*self);
            lemma_map_of_dom(self.seq_view());
        }
        let ghost s = self.seq_view();
        let r = self.find_idx(id);
        let mut entries: Vec<(Id, Item)> = Vec::new();
        core::mem::swap(&mut entries, &mut self.entries);
        match r {
            Some(i) => {
                proof {
                    assert(seq_has_key(s, id));
                    assert(old(self)@.dom().contains(id));
                }
                entries[i] = (id, item);
                proof {
                    assert(Seq::new(
                        entries@.len(),
                        |k: int| (entries@[k].0, entries@[k].1@),
                    ) =~= s.update(i as int, (id, item@)));
                    lemma_map_of_update(s, i as int, item@);
                    assert(keys_unique(s.update(i as int, (id, item@))));
                }
                self.entries = entries;
                proof {
                    assert(self.seq_view() =~= s.update(i as int, (id, item@)));
                }
            },
            None => {
                proof {
                    assert(!old(self)@.dom().contains(id));
                }
                entries.push((id, item));
                proof {
                    assert(Seq::new(entries@.len(), |k: int| (entries@[k].0, entries@[k].1@))
                        =~= s.push((id, item@)));
                    lemma_map_of_push(s, id, item@);
                    assert forall|x: int, y: int|
                        0 <= x < y < s.push((id, item@)).len() implies (#[trigger] s.push(
                        (id, item@),
                    )[x]).0 != (#[trigger] s.push((id, item@))[y]).0 by {
                        if y < s.len() {
                            assert(s[x].0 != s[y].0);
                        } else {
                            assert(s[x].0 != id);
                        }
                    }
                }
                self.entries = entries;
                proof {
                    assert(self.seq_view() =~= s.push((id, item@)));
                }
            },
        }
    }

    /// Drops the key and whatever item it held.
    pub fn remove(&mut self, id: Id)
        ensures
            final(self)@ == old(self)@.remove(id),
    {
        proof {
            use_type_invariant(&*self);
            lemma_map_of_dom(self.seq_view());
        }
        let ghost s = self.seq_view();
        let r = self.find_idx(id);
        let mut entries: Vec<(Id, Item)> = Vec::new();
        core::mem::swap(&mut entries, &mut self.entries);
        match r {
            Some(i) => {
                entries.remove(i);
                proof {
                    assert(Seq::new(entries@.len(), |k: int| (entries@[k].0, entries@[k].1@))
                        =~= s.remove(i as int));
                    lemma_map_of_remove(s, i as int);
                    assert forall|x: int, y: int|
                        0 <= x < y < s.remove(i as int).len() implies (#[trigger] s.remove(
                        i as int,
                    )[x]).0 != (#[trigger] s.remove(i as int)[y]).0 by {
                        let xo = if x < i as int {
                            x
                        } else {
                            x + 1
                        };
                        let yo = if y < i as int {
                            y
                        } else {
                            y + 1
                        };
                        assert(s[xo].0 != s[yo].0);
                    }
                }
            },
            None => {
                proof {
                    assert(!map_of(s).dom().contains(id));
                    assert(map_of(s).remove(id) =~= map_of(s));
                }
            },
        }
        self.entries = entries;
    }

    /// The entry at a storage index.
    pub fn entry_at(&self, i: usize) -> (r: (Id, &Item))
        requires
            i < self.seq_view().len(),
        ensures
            r.0 == self.seq_view()[i as int].0,
            r.1@ == self.seq_view()[i as int].1,
    {
        (self.entries[i].0, &self.entries[i].1)
    }

    /// A table made of the given entries; entries that repeat a key are
    /// rejected.
    pub fn from_entries(entries: Vec<(Id, Item)>) -> (r: Option<ItemMap>)
        ensures
            match r {
                Some(m) => m.seq_view() == entries_seq_view(entries@) && keys_unique(
                    entries_seq_view(entries@),
                ),
                None => !keys_unique(entries_seq_view(entries@)),
            },
    {
        let ghost s = entries_seq_view(entries@);
        let mut i: usize = 1;
        while i < entries.len()
            invariant
                i >= 1,
                s == entries_seq_view(entries@),
                forall|x: int, y: int| 0 <= x < y < i ==> (#[trigger] s[x]).0 != (#[trigger] s[y]).0,
            decreases entries.len() - i,
        {
            let mut j: usize = 0;
            while j < i
                invariant
                    j <= i < entries@.len(),
                    s == entries_seq_view(entries@),
                    forall|x: int| 0 <= x < j ==> (#[trigger] s[x]).0 != s[i as int].0,
                decreases i - j,
            {
                if entries[j].0 == entries[i].0 {
                    proof {
                        assert(s[j as int].0 == s[i as int].0);
                        assert(!keys_unique(s));
                    }
                    return None;
                }
                j = j + 1;
            }
            i = i + 1;
        }
        let m = ItemMap { entries };
        proof {
            assert(m.seq_view() =~= s);
            assert(keys_unique(s));
        }
        Some(m)
    }

    /// All keys, in storage order.
    pub fn ids(&self) -> (r: Vec<Id>)
        ensures
            r@ == Seq::new(self.seq_view().len(), |i: int| self.seq_view()[i].0),
    {
        let mut out: Vec<Id> = Vec::new();
        let mut i: usize = 0;
        while i < self.entries.len()
            invariant
                i <= self.entries.len(),
                out@ == Seq::new(i as nat, |k: int| self.seq_view()[k].0),
            decreases self.entries.len() - i,
        {
            out.push(self.entries[i].0);
            proof {
                assert(out@ =~= Seq::new(i as nat + 1, |k: int| self.seq_view()[k].0));
            }
            i = i + 1;
        }
        proof {
            assert(out@ =~= Seq::new(self.seq_view().len(), |k: int| self.seq_view()[k].0));
        }
        out
    }
}

/// A clone of the byte vector, pinned to keep the same bytes.
pub fn clone_bytes(v: &Vec<u8>) -> (r: Vec<u8>)
    ensures
        r@ == v@,
{
    let mut out: Vec<u8> = Vec::new();
    let mut i: usize = 0;
    while i < v.len()
        invariant
            i <= v.len(),
            out@ == v@.take(i as int),
        decreases v.len() - i,
    {
        out.push(v[i]);
        proof {
            assert(out@ =~= v@.take(i as int + 1));
        }
        i = i + 1;
    }
    proof {
        assert(v@.take(v.len() as int) =~= v@);
    }
    out
}

} // verus!
