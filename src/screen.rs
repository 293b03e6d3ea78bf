//! The 64x32 pixel grid, kept in a bit-vector, and the 16-key keypad.

use vstd::prelude::*;
use bitvec::vec::BitVec;
use crate::error::Chip8Error;

verus! {

/// Width of the pixel grid.
pub const WIDTH: u8 = 64;

/// Height of the pixel grid.
pub const HEIGHT: u8 = 32;

/// Number of pixels in the grid.
pub const PIXEL_COUNT: usize = 2048;

/// A grid of bits kept in a `bitvec` bit-vector, opaque to the verifier.
#[verifier::external_body]
pub struct PixelBits {
    bits: BitVec,
}

/// The bits held by a pixel grid, in index order.
pub uninterp spec fn bits_of(b: PixelBits) -> Seq<bool>;

/// Relies on `BitVec::repeat`: a bit-vector of `len` copies of `bit`.
#[verifier::external_body]
fn bits_repeat(bit: bool, len: usize) -> (r: PixelBits)
    ensures
        bits_of(r) == Seq::new(len as nat, |i: int| bit),
{
    PixelBits { bits: BitVec::repeat(bit, len) }
}

/// Relies on `BitSlice::get`: the bit at `i`, or `None` past the end.
#[verifier::external_body]
fn bits_get(b: &PixelBits, i: usize) -> (r: Option<bool>)
    ensures
        i < bits_of(*b).len() ==> r == Some(bits_of(*b)[i as int]),
        i >= bits_of(*b).len() ==> r is None,
{
    b.bits.get(i).map(|bit| *bit)
}

/// Relies on `BitSlice::set`: overwrites the bit at `i` (it panics past the end).
#[verifier::external_body]
fn bits_set(b: &mut PixelBits, i: usize, value: bool)
    requires
        i < bits_of(*old(b)).len(),
    ensures
        bits_of(*final(b)) == bits_of(*old(b)).update(i as int, value),
    no_unwind
{
    b.bits.set(i, value)
}

/// Relies on `BitSlice::fill`: every bit becomes `value`, the length is kept.
#[verifier::external_body]
fn bits_fill(b: &mut PixelBits, value: bool)
    ensures
        bits_of(*final(b)) == Seq::new(bits_of(*old(b)).len(), |i: int| value),
    no_unwind
{
    b.bits.fill(value)
}

/// Position of pixel `(x, y)` in the row-major grid.
pub open spec fn pixel_index(x: int, y: int) -> int {
    x + y * 64
}

/// Whether key `k` is down in a set of key flags, one bit per key.
pub open spec fn key_bit(flags: u16, k: int) -> bool {
    flags & (1u16 << (k as u16)) != 0
}

/// Setting bit `k` of the key flags sets key `k` and leaves every other key.
proof fn lemma_press_bit(f: u16, k: u16, j: u16)
    requires
        k < 16,
        j < 16,
    ensures
        key_bit(f | (1u16 << k), j as int) == (j == k || key_bit(f, j as int)),
{
    assert((f | (1u16 << k)) & (1u16 << j) != 0 <==> (j == k || f & (1u16 << j) != 0))
        by (bit_vector)
        requires
            k < 16,
            j < 16,
    ;
}

/// Clearing bit `k` of the key flags releases key `k` and leaves every other key.
proof fn lemma_release_bit(f: u16, k: u16, j: u16)
    requires
        k < 16,
        j < 16,
    ensures
        key_bit(f & !(1u16 << k), j as int) == (j != k && key_bit(f, j as int)),
{
    assert((f & !(1u16 << k)) & (1u16 << j) != 0 <==> (j != k && f & (1u16 << j) != 0))
        by (bit_vector)
        requires
            k < 16,
            j < 16,
    ;
}

/// The key flags are zero exactly when no key is down.
proof fn lemma_no_key_bit(f: u16)
    ensures
        f == 0 <==> forall|k: int| 0 <= k < 16 ==> !key_bit(f, k),
{
    if f == 0 {
        assert forall|k: int| 0 <= k < 16 implies !key_bit(f, k) by {
            let kk = k as u16;
            assert(0u16 & (1u16 << kk) == 0) by (bit_vector);
        }
    }
    if forall|k: int| 0 <= k < 16 ==> !key_bit(f, k) {
        assert(!key_bit(f, 0) && !key_bit(f, 1) && !key_bit(f, 2) && !key_bit(f, 3));
        assert(!key_bit(f, 4) && !key_bit(f, 5) && !key_bit(f, 6) && !key_bit(f, 7));
        assert(!key_bit(f, 8) && !key_bit(f, 9) && !key_bit(f, 10) && !key_bit(f, 11));
        assert(!key_bit(f, 12) && !key_bit(f, 13) && !key_bit(f, 14) && !key_bit(f, 15));
        assert(f == 0) by (bit_vector)
            requires
                f & (1u16 << 0u16) == 0, f & (1u16 << 1u16) == 0, f & (1u16 << 2u16) == 0,
                f & (1u16 << 3u16) == 0, f & (1u16 << 4u16) == 0, f & (1u16 << 5u16) == 0,
                f & (1u16 << 6u16) == 0, f & (1u16 << 7u16) == 0, f & (1u16 << 8u16) == 0,
                f & (1u16 << 9u16) == 0, f & (1u16 << 10u16) == 0, f & (1u16 << 11u16) == 0,
                f & (1u16 << 12u16) == 0, f & (1u16 << 13u16) == 0, f & (1u16 << 14u16) == 0,
                f & (1u16 << 15u16) == 0,
        ;
    }
}

/// The abstract state of the framebuffer and keypad.
pub struct ScreenView {
    pub pixels: Seq<bool>,
    pub keys: Seq<bool>,
    pub closed: bool,
    pub frame_pending: bool,
}

/// The 64x32 monochrome pixel grid, the 16-key keypad and the window's
/// closed flag, as the interpreter sees them.
pub struct Screen {
    pixel_state: PixelBits,
    key_flags: u16,
    quit_flag: bool,
    frame_pending: bool,
}

/// Row-major index of pixel `(x, y)`.
pub fn pos_to_index(x: u8, y: u8) -> (r: usize)
    ensures
        r == pixel_index(x as int, y as int),
{
    (x as usize) + (y as usize) * 64
}

impl View for Screen {
    type V = ScreenView;

    closed spec fn view(&self) -> ScreenView {
        ScreenView {
            pixels: Seq::new(PIXEL_COUNT as nat, |i: int| bits_of(self.pixel_state)[i]),
            keys: Seq::new(16, |k: int| key_bit(self.key_flags, k)),
            closed: self.quit_flag,
            frame_pending: self.frame_pending,
        }
    }
}

impl Screen {
    #[verifier::type_invariant]
    spec fn inv(&self) -> bool {
        bits_of(self.pixel_state).len() == PIXEL_COUNT
    }

    /// There are always 2048 pixels and 16 keys.
    pub proof fn lemma_shape(&self)
        ensures
            self@.pixels.len() == PIXEL_COUNT,
            self@.keys.len() == 16,
    {
    }

    /// A dark grid, no key down, the window open and nothing to present.
    pub fn new() -> (s: Self)
        ensures
            s@.pixels == Seq::new(PIXEL_COUNT as nat, |i: int| false),
            s@.keys == Seq::new(16, |k: int| false),
            !s@.closed,
            !s@.frame_pending,
    {
        let s = Screen {
            pixel_state: bits_repeat(false, PIXEL_COUNT),
            key_flags: 0,
            quit_flag: false,
            frame_pending: false,
        };
        assert forall|k: int| 0 <= k < 16 implies !key_bit(0u16, k) by {
            let kk = k as u16;
            assert(0u16 & (1u16 << kk) == 0) by (bit_vector);
        }
        assert(s@.keys =~= Seq::new(16, |k: int| false));
        assert(s@.pixels =~= Seq::new(PIXEL_COUNT as nat, |i: int| false));
        s
    }

    /// Whether any key is down.
    pub fn any_key_pressed(&self) -> (r: bool)
        ensures
            r == exists|k: int| 0 <= k < 16 && self@.keys[k],
    {
        proof {
            let f = self.key_flags;
            lemma_no_key_bit(f);
            if f > 0 {
                let k = choose|k: int| 0 <= k < 16 && key_bit(f, k);
                assert(self@.keys[k]);
            }
        }
        self.key_flags > 0
    }

    /// The lowest-numbered key that is down.
    pub fn get_pressed_key(&self) -> (r: u8)
        requires
            exists|k: int| 0 <= k < 16 && self@.keys[k],
        ensures
            r < 16,
            self@.keys[r as int],
            forall|j: int| 0 <= j < r ==> !self@.keys[j],
    {
        let mut key: u8 = 0;
        while key < 16
            invariant
                key <= 16,
                forall|j: int| 0 <= j < key ==> !self@.keys[j],
            decreases 16 - key,
        {
            if self.key_flags & (1u16 << (key as u16)) > 0 {
                return key;
            }
            key += 1;
        }
        assert(false);
        0
    }

    /// Whether key `key` is down; keys above 0xF are refused.
    pub fn key_state(&self, key: u8) -> (r: Result<bool, Chip8Error>)
        ensures
            key <= 15 ==> r == Ok::<bool, Chip8Error>(self@.keys[key as int]),
            key > 15 ==> r == Err::<bool, Chip8Error>(Chip8Error::OutOfRangeKey(key)),
    {
        if key > 15 {
            return Err(Chip8Error::OutOfRangeKey(key));
        }
        Ok(self.key_flags & (1u16 << (key as u16)) > 0)
    }

    /// Marks key `key` as down; keys above 0xF are ignored.
    pub fn key_pressed(&mut self, key: u8)
        ensures
            key <= 15 ==> final(self)@ == (ScreenView { keys: old(self)@.keys.update(key as int, true), ..old(self)@ }),
            key > 15 ==> final(self)@ == old(self)@,
    {
        proof {
            use_type_invariant(&*self);
        }
        if key <= 15 {
            let ghost f = self.key_flags;
            self.key_flags = self.key_flags | (1u16 << (key as u16));
            assert forall|j: int| 0 <= j < 16 implies #[trigger] self@.keys[j] == old(self)@.keys.update(key as int, true)[j] by {
                lemma_press_bit(f, key as u16, j as u16);
                assert(old(self)@.keys[j] == key_bit(f, j));
            }
            assert(self@.keys =~= old(self)@.keys.update(key as int, true));
        }
    }

    /// Marks key `key` as up; keys above 0xF are ignored.
    pub fn key_released(&mut self, key: u8)
        ensures
            key <= 15 ==> final(self)@ == (ScreenView { keys: old(self)@.keys.update(key as int, false), ..old(self)@ }),
            key > 15 ==> final(self)@ == old(self)@,
    {
        proof {
            use_type_invariant(&*self);
        }
        if key <= 15 {
            let ghost f = self.key_flags;
            self.key_flags = self.key_flags & !(1u16 << (key as u16));
            assert forall|j: int| 0 <= j < 16 implies #[trigger] self@.keys[j] == old(self)@.keys.update(key as int, false)[j] by {
                lemma_release_bit(f, key as u16, j as u16);
                assert(old(self)@.keys[j] == key_bit(f, j));
            }
            assert(self@.keys =~= old(self)@.keys.update(key as int, false));
        }
    }

    /// Whether the window was closed.
    pub fn closed(&self) -> (r: bool)
        ensures
            r == self@.closed,
    {
        self.quit_flag
    }

    /// Records that the window was closed.
    pub fn close(&mut self)
        ensures
            final(self)@ == (ScreenView { closed: true, ..old(self)@ }),
    {
        proof {
            use_type_invariant(&*self);
        }
        self.quit_flag = true;
    }

    /// Asks for the grid to be presented.
    pub fn draw(&mut self)
        ensures
            final(self)@ == (ScreenView { frame_pending: true, ..old(self)@ }),
    {
        proof {
            use_type_invariant(&*self);
        }
        self.frame_pending = true;
    }

    /// Whether the grid changed since it was last presented; the request is
    /// cleared.
    pub fn take_frame(&mut self) -> (r: bool)
        ensures
            r == old(self)@.frame_pending,
            final(self)@ == (ScreenView { frame_pending: false, ..old(self)@ }),
    {
        proof {
            use_type_invariant(&*self);
        }
        let r = self.frame_pending;
        self.frame_pending = false;
        r
    }

    /// Turns every pixel off and asks for the grid to be presented.
    pub fn clear(&mut self)
        ensures
            final(self)@ == (ScreenView {
                pixels: Seq::new(PIXEL_COUNT as nat, |i: int| false),
                frame_pending: true,
                ..old(self)@
            }),
    {
        proof {
            use_type_invariant(&*self);
        }
        bits_fill(&mut self.pixel_state, false);
        self.frame_pending = true;
        assert(self@.pixels =~= Seq::new(PIXEL_COUNT as nat, |i: int| false));
    }

    /// Sets pixel `(x, y)`; coordinates outside the 64x32 grid are refused.
    pub fn set_pixel(&mut self, x: u8, y: u8, pixel: bool) -> (r: Result<(), Chip8Error>)
        ensures
            x < WIDTH && y < HEIGHT ==> r == Ok::<(), Chip8Error>(())
                && final(self)@ == (ScreenView {
                    pixels: old(self)@.pixels.update(pixel_index(x as int, y as int), pixel),
                    ..old(self)@
                }),
            !(x < WIDTH && y < HEIGHT) ==> r == Err::<(), Chip8Error>(Chip8Error::InvalidPixelPosition(x, y))
                && final(self)@ == old(self)@,
    {
        if x >= WIDTH || y >= HEIGHT {
            return Err(Chip8Error::InvalidPixelPosition(x, y));
        }
        proof {
            use_type_invariant(&*self);
        }
        bits_set(&mut self.pixel_state, pos_to_index(x, y), pixel);
        assert(self@.pixels =~= old(self)@.pixels.update(pixel_index(x as int, y as int), pixel));
        Ok(())
    }

    /// Reads pixel `(x, y)`; coordinates outside the 64x32 grid are refused.
    pub fn get_pixel(&self, x: u8, y: u8) -> (r: Result<bool, Chip8Error>)
        ensures
            x < WIDTH && y < HEIGHT ==> r == Ok::<bool, Chip8Error>(self@.pixels[pixel_index(x as int, y as int)]),
            !(x < WIDTH && y < HEIGHT) ==> r == Err::<bool, Chip8Error>(Chip8Error::InvalidPixelPosition(x, y)),
            self@.pixels.len() == PIXEL_COUNT,
    {
        proof {
            use_type_invariant(self);
        }
        if x >= WIDTH || y >= HEIGHT {
            return Err(Chip8Error::InvalidPixelPosition(x, y));
        }
        match bits_get(&self.pixel_state, pos_to_index(x, y)) {
            Some(pixel) => Ok(pixel),
            None => Err(Chip8Error::InvalidPixelPosition(x, y)),
        }
    }
}

} // verus!
