//! The lock word of a link: one state for each side of the link and a flag that says
//! whether the link itself is taken, packed into a byte.
use vstd::prelude::*;

verus! {

/// Code of a side that is free for the taking.
pub const FLAGS_FREE: u8 = 0b00;

/// Code of a side that is taken: whoever wants it should wait to be woken.
pub const FLAGS_TAKEN: u8 = 0b01;

/// Code of a side that is held for a moment only: whoever wants it should spin.
pub const FLAGS_TEMP: u8 = 0b10;

/// State of one side of a link.
#[derive(Copy, Clone, Debug, PartialEq, Eq, Hash, Structural)]
pub enum LockState {
    Free,
    Taken,
    Temp,
}

impl LockState {
    /// The two-bit code of a state.
    pub open spec fn code(self) -> u8 {
        match self {
            LockState::Free => FLAGS_FREE,
            LockState::Taken => FLAGS_TAKEN,
            LockState::Temp => FLAGS_TEMP,
        }
    }

    /// The state that a two-bit code stands for; the code `0b11` stands for none.
    pub open spec fn of_code(c: u8) -> LockState
        recommends
            c < 3,
    {
        if c == FLAGS_TAKEN {
            LockState::Taken
        } else if c == FLAGS_TEMP {
            LockState::Temp
        } else {
            LockState::Free
        }
    }

    /// Reads the state in the two lowest bits of `x`.
    pub fn from(x: u8) -> (state: LockState)
        requires
            x % 4 != 3,
        ensures
            state == LockState::of_code(x % 4),
            state.code() == x % 4,
    {
        let bits: u8 = x & 0b11;
        assert(x & 0b11 == x % 4) by (bit_vector);
        if bits == FLAGS_TAKEN {
            LockState::Taken
        } else if bits == FLAGS_TEMP {
            LockState::Temp
        } else {
            LockState::Free
        }
    }

    /// The code of this state.
    pub fn to_u8(self) -> (bits: u8)
        ensures
            bits == self.code(),
            bits < 3,
            LockState::of_code(bits) == self,
    {
        match self {
            LockState::Free => FLAGS_FREE,
            LockState::Temp => FLAGS_TEMP,
            LockState::Taken => FLAGS_TAKEN,
        }
    }
}

/// A lock word, unpacked.
#[derive(Copy, Clone, Debug, PartialEq, Eq, Hash, Structural)]
pub struct LinkLockState {
    /// The side that faces the link before this one.
    pub prev: LockState,
    /// The side that faces the link after this one.
    pub post: LockState,
    /// Whether the link itself is locked or handed out.
    pub link_taken: bool,
}

/// A byte in which neither side holds the unused code `0b11`.
pub open spec fn decodable(x: u8) -> bool {
    &&& x % 4 != 3
    &&& x / 4 % 4 != 3
}

impl LinkLockState {
    /// The byte that packs this word.
    pub open spec fn code(self) -> u8 {
        (self.prev.code() + 4 * self.post.code() + if self.link_taken {
            16int
        } else {
            0int
        }) as u8
    }

    /// The word that a byte packs.
    pub open spec fn decode(x: u8) -> LinkLockState
        recommends
            decodable(x),
    {
        LinkLockState {
            prev: LockState::of_code(x % 4),
            post: LockState::of_code(x / 4 % 4),
            link_taken: x >= 16,
        }
    }

    /// Nobody holds any part of the link.
    #[verifier::allow_in_spec]
    pub fn free() -> LinkLockState
        returns
            (LinkLockState { prev: LockState::Free, post: LockState::Free, link_taken: false }),
    {
        LinkLockState { prev: LockState::Free, post: LockState::Free, link_taken: false }
    }

    /// Somebody holds the whole link for a moment.
    #[verifier::allow_in_spec]
    pub fn held() -> LinkLockState
        returns
            (LinkLockState { prev: LockState::Temp, post: LockState::Temp, link_taken: true }),
    {
        LinkLockState { prev: LockState::Temp, post: LockState::Temp, link_taken: true }
    }

    /// The link is off the ring: its value was handed out.
    #[verifier::allow_in_spec]
    pub fn gone() -> LinkLockState
        returns
            (LinkLockState { prev: LockState::Taken, post: LockState::Taken, link_taken: true }),
    {
        LinkLockState { prev: LockState::Taken, post: LockState::Taken, link_taken: true }
    }

    /// Unpacks a byte.
    pub fn from_u8(x: u8) -> (state: LinkLockState)
        requires
            decodable(x),
        ensures
            state == LinkLockState::decode(x),
    {
        assert(x >> 2 == x / 4) by (bit_vector);
        assert(x >> 4 == x / 16) by (bit_vector);
        let prev: LockState = LockState::from(x);
        let post: LockState = LockState::from(x >> 2);
        let taken: bool = (x >> 4) > 0;
        LinkLockState { prev, post, link_taken: taken }
    }

    /// Packs this word into a byte.
    pub fn to_u8(self) -> (x: u8)
        ensures
            x == self.code(),
            x < 32,
            decodable(x),
            LinkLockState::decode(x) == self,
    {
        let t: u8 = if self.link_taken { 1 } else { 0 };
        let q: u8 = self.post.to_u8();
        let p: u8 = self.prev.to_u8();
        assert(t << 4 | q << 2 | p == 16 * t + 4 * q + p) by (bit_vector)
            requires
                t <= 1,
                q < 3,
                p < 3,
        ;
        t << 4 | q << 2 | p
    }
}

/// Packing a word and unpacking the byte gives the word back.
pub proof fn law_decode_inverts_code(state: LinkLockState)
    ensures
        decodable(state.code()),
        LinkLockState::decode(state.code()) == state,
{
}

/// Unpacking a byte and packing the word gives the byte back, for every decodable byte
/// that sets no bit above the flag.
pub proof fn law_code_inverts_decode(x: u8)
    requires
        decodable(x),
        x < 32,
    ensures
        LinkLockState::decode(x).code() == x,
{
}

/// Two words that pack into one byte are the same word.
pub proof fn law_code_is_injective(a: LinkLockState, b: LinkLockState)
    requires
        a.code() == b.code(),
    ensures
        a == b,
{
    law_decode_inverts_code(a);
    law_decode_inverts_code(b);
}

/// Where a byte keeps what: the side that faces the link before in the two lowest bits, the
/// side that faces the link after in the two next to them, and the flag above, with no bit
/// for a free side, the lower one for a taken side and the upper one for a side that is held
/// for a moment.
pub proof fn law_bits_of_a_word(x: u8)
    requires
        decodable(x),
    ensures
        LinkLockState::decode(x).prev == LockState::Free <==> x & 0b11 == 0,
        LinkLockState::decode(x).prev == LockState::Taken <==> x & 0b11 == 0b01,
        LinkLockState::decode(x).prev == LockState::Temp <==> x & 0b11 == 0b10,
        LinkLockState::decode(x).post == LockState::Free <==> x & 0b1100 == 0,
        LinkLockState::decode(x).post == LockState::Taken <==> x & 0b1100 == 0b0100,
        LinkLockState::decode(x).post == LockState::Temp <==> x & 0b1100 == 0b1000,
        LinkLockState::decode(x).link_taken <==> x & 0b11110000 != 0,
{
    assert(x & 0b11 == x % 4) by (bit_vector);
    assert(x & 0b1100 == 4 * (x / 4 % 4)) by (bit_vector);
    assert(x & 0b11110000 != 0 <==> x >= 16) by (bit_vector);
}

/// No word sets a bit above the flag, or both bits of a side.
pub proof fn law_words_use_five_bits(state: LinkLockState)
    ensures
        state.code() < 32,
        state.code() & 0b11 != 0b11,
        state.code() & 0b1100 != 0b1100,
{
    let x = state.code();
    law_decode_inverts_code(state);
    assert(x & 0b11 == x % 4) by (bit_vector);
    assert(x & 0b1100 == 4 * (x / 4 % 4)) by (bit_vector);
}

/// A byte can be unpacked just if neither side has both of its bits set.
pub proof fn law_which_bytes_are_words(x: u8)
    ensures
        decodable(x) <==> x & 0b11 != 0b11 && x & 0b1100 != 0b1100,
{
    assert(x & 0b11 == x % 4) by (bit_vector);
    assert(x & 0b1100 == 4 * (x / 4 % 4)) by (bit_vector);
}

} // verus!
