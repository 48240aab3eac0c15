//! Entity identifiers: their canonical text, the set of those already seen in
//! a region, and the source of fresh ones.

use vstd::prelude::*;

verus! {

/// The lowercase hexadecimal digit for `n`, which is below 16.
pub open spec fn hex_digit(n: int) -> char {
    if n < 10 {
        (48 + n) as char
    } else {
        (87 + n) as char
    }
}

/// The value of hexadecimal digit `k` of `id`, counted from the most significant, for `k`
/// below 32.
pub open spec fn id_digit(id: u128, k: int) -> int {
    (id as int / vstd::arithmetic::power2::pow2((4 * (31 - k)) as nat) as int) % 16
}

/// How many hyphens stand before position `i` of the canonical text.
pub open spec fn hyphens_before(i: int) -> int {
    if i < 8 {
        0
    } else if i < 13 {
        1
    } else if i < 18 {
        2
    } else if i < 23 {
        3
    } else {
        4
    }
}

/// The canonical text of an identifier: its 32 hexadecimal digits in lowercase, most
/// significant first, in groups of 8, 4, 4, 4 and 12 with hyphens between them.
pub open spec fn hyphenated(id: u128) -> Seq<char> {
    Seq::new(
        36,
        |i: int|
            if i == 8 || i == 13 || i == 18 || i == 23 {
                '-'
            } else {
                hex_digit(id_digit(id, i - hyphens_before(i)))
            },
    )
}

/// Whether `id` carries the version 4 and the variant of RFC 4122.
pub open spec fn is_random_uuid(id: u128) -> bool {
    &&& (id as int / 0x1000_0000_0000_0000_0000) % 16 == 4
    &&& (id as int / 0x4000_0000_0000_0000) % 4 == 2
}

/// Whether every identifier of `draws` carries the version 4 and the variant of RFC 4122.
pub open spec fn all_random(draws: Seq<u128>) -> bool {
    forall|k: int| 0 <= k < draws.len() ==> is_random_uuid(#[trigger] draws[k])
}

/// `Uuid::from_u128(id).to_string()`: the canonical text of `id`, as the `uuid` crate
/// writes it.
#[verifier::external_body]
fn uuid_to_string(id: u128) -> (text: String)
    ensures
        text@ == hyphenated(id),
{
    uuid::Uuid::from_u128(id).to_string()
}

/// `Uuid::new_v4().as_u128()`: a fresh random identifier. Of its value only the version
/// and the variant are known.
#[verifier::external_body]
fn random_uuid() -> (id: u128)
    ensures
        is_random_uuid(id),
{
    uuid::Uuid::new_v4().as_u128()
}

/// The canonical text of `id`.
pub fn uuid_text(id: u128) -> (text: String)
    ensures
        text@ == hyphenated(id),
{
    uuid_to_string(id)
}

/// The unsigned value of a 32-bit lane that is stored as a signed number.
pub open spec fn lane_value(lane: i32) -> int {
    if lane >= 0 {
        lane as int
    } else {
        lane + 0x1_0000_0000
    }
}

/// The identifier that four lanes hold, most significant first.
pub open spec fn lanes_id(lanes: Seq<i32>) -> u128 {
    (lane_value(lanes[0]) * 0x1_0000_0000_0000_0000_0000_0000 + lane_value(lanes[1])
        * 0x1_0000_0000_0000_0000 + lane_value(lanes[2]) * 0x1_0000_0000 + lane_value(
        lanes[3],
    )) as u128
}

/// The signed number that stores the unsigned 32-bit value `v`.
pub open spec fn value_lane(v: int) -> i32 {
    if v < 0x8000_0000 {
        v as i32
    } else {
        (v - 0x1_0000_0000) as i32
    }
}

/// The four lanes that hold `id`, most significant first.
pub open spec fn id_lanes(id: u128) -> Seq<i32> {
    seq![
        value_lane(id as int / 0x1_0000_0000_0000_0000_0000_0000),
        value_lane((id as int / 0x1_0000_0000_0000_0000) % 0x1_0000_0000),
        value_lane((id as int / 0x1_0000_0000) % 0x1_0000_0000),
        value_lane(id as int % 0x1_0000_0000),
    ]
}

/// Packing the lanes of an identifier gives the identifier back.
pub proof fn lemma_lanes_round_trip(id: u128)
    ensures
        id_lanes(id).len() == 4,
        lanes_id(id_lanes(id)) == id,
{
    let a = id as int / 0x1_0000_0000_0000_0000_0000_0000;
    let b = (id as int / 0x1_0000_0000_0000_0000) % 0x1_0000_0000;
    let c = (id as int / 0x1_0000_0000) % 0x1_0000_0000;
    let d = id as int % 0x1_0000_0000;
    let x1 = id as int / 0x1_0000_0000;
    let x2 = x1 / 0x1_0000_0000;
    let x3 = x2 / 0x1_0000_0000;
    assert(id as int == x1 * 0x1_0000_0000 + d);
    assert(x1 == x2 * 0x1_0000_0000 + x1 % 0x1_0000_0000);
    assert(x2 == x3 * 0x1_0000_0000 + x2 % 0x1_0000_0000);
    assert(x2 == id as int / 0x1_0000_0000_0000_0000) by {
        vstd::arithmetic::div_mod::lemma_div_denominator(
            id as int,
            0x1_0000_0000,
            0x1_0000_0000,
        );
    }
    assert(x3 == a) by {
        vstd::arithmetic::div_mod::lemma_div_denominator(
            id as int,
            0x1_0000_0000_0000_0000,
            0x1_0000_0000,
        );
    }
    assert(x1 % 0x1_0000_0000 == c);
    assert(x2 % 0x1_0000_0000 == b);
    assert(0 <= a < 0x1_0000_0000);
    assert(lane_value(value_lane(a)) == a);
    assert(lane_value(value_lane(b)) == b);
    assert(lane_value(value_lane(c)) == c);
    assert(lane_value(value_lane(d)) == d);
}

/// The identifier that four lanes hold.
pub fn pack_lanes(lanes: &Vec<i32>) -> (id: u128)
    requires
        lanes@.len() == 4,
    ensures
        id == lanes_id(lanes@),
{
    let a: u128 = lane_bits(lanes[0]);
    let b: u128 = lane_bits(lanes[1]);
    let c: u128 = lane_bits(lanes[2]);
    let d: u128 = lane_bits(lanes[3]);
    a * 0x1_0000_0000_0000_0000_0000_0000 + b * 0x1_0000_0000_0000_0000 + c * 0x1_0000_0000 + d
}

/// The unsigned value of a lane.
fn lane_bits(lane: i32) -> (v: u128)
    ensures
        v == lane_value(lane),
        v < 0x1_0000_0000,
{
    if lane >= 0 {
        lane as u128
    } else {
        (lane as i64 + 0x1_0000_0000) as u128
    }
}

/// The lane that stores an unsigned 32-bit value.
fn bits_lane(v: u128) -> (lane: i32)
    requires
        v < 0x1_0000_0000,
    ensures
        lane == value_lane(v as int),
{
    if v < 0x8000_0000 {
        v as i32
    } else {
        (v as i64 - 0x1_0000_0000) as i32
    }
}

/// Writes `id` into four lanes.
pub fn unpack_lanes(id: u128, lanes: &mut Vec<i32>)
    requires
        old(lanes)@.len() == 4,
    ensures
        final(lanes)@ == id_lanes(id),
{
    lanes[0] = bits_lane(id / 0x1_0000_0000_0000_0000_0000_0000);
    lanes[1] = bits_lane((id / 0x1_0000_0000_0000_0000) % 0x1_0000_0000);
    lanes[2] = bits_lane((id / 0x1_0000_0000) % 0x1_0000_0000);
    lanes[3] = bits_lane(id % 0x1_0000_0000);
    assert(lanes@ =~= id_lanes(id));
}

/// The identifiers seen so far, by their text. They are kept in a vector and searched in
/// turn: of a hashed set keyed by strings nothing could be proved here, since the model of
/// hashed collections covers integer keys only.
pub struct UuidSet {
    pub items: Vec<String>,
}

impl View for UuidSet {
    type V = Set<Seq<char>>;

    open spec fn view(&self) -> Set<Seq<char>> {
        Set::new(|text: Seq<char>| exists|i: int| 0 <= i < self.items@.len() && self.items@[i]@ == text)
    }
}

impl UuidSet {
    /// A set without members.
    pub fn new() -> (set: Self)
        ensures
            set@ == Set::<Seq<char>>::empty(),
    {
        let set = UuidSet { items: Vec::new() };
        assert(set@ =~= Set::<Seq<char>>::empty());
        set
    }

    /// Whether `text` is a member.
    pub fn contains(&self, text: &String) -> (found: bool)
        ensures
            found == self@.contains(text@),
    {
        let mut i: usize = 0;
        while i < self.items.len()
            invariant
                i <= self.items@.len(),
                forall|k: int| 0 <= k < i ==> self.items@[k]@ != text@,
            decreases self.items@.len() - i,
        {
            if self.items[i] == *text {
                return true;
            }
            i += 1;
        }
        false
    }

    /// Makes `text` a member.
    pub fn insert(&mut self, text: String)
        ensures
            final(self)@ == old(self)@.insert(text@),
    {
        if !self.contains(&text) {
            self.items.push(text);
            assert forall|t: Seq<char>| final(self)@.contains(t) <==> old(self)@.insert(
                text@,
            ).contains(t) by {
                if old(self)@.contains(t) {
                    let i = choose|i: int| 0 <= i < old(self).items@.len() && old(self).items@[i]@ == t;
                    assert(self.items@[i]@ == t);
                }
                if t == text@ {
                    assert(self.items@[self.items@.len() - 1]@ == t);
                }
            }
        }
        assert(self@ =~= old(self)@.insert(text@));
    }
}

/// Where fresh identifiers come from. The source remembers all that it has handed out,
/// in order, so that what was done with them can be said exactly.
pub struct UuidSource {
    drawn: Ghost<Seq<u128>>,
}

impl UuidSource {
    /// The identifiers handed out so far, oldest first.
    pub closed spec fn drawn(&self) -> Seq<u128> {
        self.drawn@
    }

    /// Whether this source is `earlier` after some more draws.
    pub open spec fn extends(&self, earlier: &UuidSource) -> bool {
        earlier.drawn().is_prefix_of(self.drawn())
    }

    /// The identifiers handed out since `earlier`, oldest first.
    pub open spec fn since(&self, earlier: &UuidSource) -> Seq<u128> {
        self.drawn().subrange(earlier.drawn().len() as int, self.drawn().len() as int)
    }

    /// A source that has handed out nothing yet.
    pub fn new() -> (source: Self)
        ensures
            source.drawn() == Seq::<u128>::empty(),
    {
        UuidSource { drawn: Ghost(Seq::empty()) }
    }

    /// Hands out a fresh random identifier of version 4.
    pub fn draw(&mut self) -> (id: u128)
        ensures
            final(self).drawn() == old(self).drawn().push(id),
            is_random_uuid(id),
    {
        let id = random_uuid();
        self.drawn = Ghost(self.drawn@.push(id));
        id
    }
}

} // verus!
