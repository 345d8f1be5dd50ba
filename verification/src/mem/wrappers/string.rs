use vstd::prelude::*;
use super::vec::Vec;
use vstd::string::StringSliceAdditionalSpecFns;

verus! {

/// The number of bytes `char::len_utf8` gives for a scalar value.
pub open spec fn utf8_len(c: u32) -> nat {
    if c < 0x80 {
        1
    } else if c < 0x800 {
        2
    } else if c < 0x10000 {
        3
    } else {
        4
    }
}

/// The `n` low bytes of `v`, least significant first.
pub open spec fn low_bytes(v: u32, n: nat) -> Seq<u8>
    decreases n,
{
    if n == 0 {
        Seq::empty()
    } else {
        seq![(v % 256) as u8] + low_bytes(v / 256, (n - 1) as nat)
    }
}

/// The bytes `c` takes in UTF-8: 1 below U+0080, 2 below U+0800, 3 below
/// U+10000 and 4 above.
fn char_len_utf8(c: char) -> (n: usize)
    ensures
        n == utf8_len(c as u32),
{
    let v = c as u32;
    if v < 0x80 {
        1
    } else if v < 0x800 {
        2
    } else if v < 0x10000 {
        3
    } else {
        4
    }
}

/// The capacity of a byte vector of length `len` and capacity `cap` after
/// `n` more bytes are pushed.
pub open spec fn cap_after(len: int, cap: int, n: nat) -> int
    decreases n,
{
    if n == 0 {
        cap
    } else {
        let next = if len < cap { cap } else if cap == 0 { 4 } else { 2 * cap };
        cap_after(len + 1, next, (n - 1) as nat)
    }
}

/// Pushing `n` more bytes onto a byte vector of length `len` and capacity
/// `cap` never grows the capacity beyond `isize::MAX` (where a layout for
/// it could not be made).
pub open spec fn push_fits(len: int, cap: int, n: nat) -> bool
    decreases n,
{
    if n == 0 {
        true
    } else {
        let next = if len < cap { cap } else if cap == 0 { 4 } else { 2 * cap };
        &&& (len >= cap ==> next <= isize::MAX)
        &&& push_fits(len + 1, next, (n - 1) as nat)
    }
}

/// A string of bytes. `push` stores a character as the low
/// `len_utf8(c)` bytes of its scalar value, least significant first.
pub struct String {
    vec: Vec<u8>,
}

impl View for String {
    type V = Seq<u8>;

    closed spec fn view(&self) -> Seq<u8> {
        self.vec@
    }
}

impl String {
    pub closed spec fn wf(&self) -> bool {
        self.vec.wf()
    }

    /// The number of bytes there is room for.
    pub closed spec fn spec_capacity(&self) -> nat {
        self.vec.spec_capacity()
    }

    pub fn new() -> (r: Self)
        ensures
            r.wf(),
            r@ == Seq::<u8>::empty(),
            r.spec_capacity() == 0,
    {
        String { vec: Vec::new() }
    }

    fn push_byte(&mut self, b: u8)
        requires
            old(self).wf(),
            push_fits(old(self)@.len() as int, old(self).spec_capacity() as int, 1),
        ensures
            final(self).wf(),
            final(self)@ == old(self)@.push(b),
            final(self).spec_capacity() == old(self).vec.capacity_after_push(),
    {
        proof {
            broadcast use vstd::layout::layout_of_primitives, vstd::layout::align_of_u8;
        }
        self.vec.push(b);
    }

    /// Appends the low `len_utf8(c)` bytes of `c`'s scalar value, least
    /// significant first (above U+007F these are not `c`'s UTF-8 bytes).
    pub fn push(&mut self, c: char)
        requires
            old(self).wf(),
            push_fits(old(self)@.len() as int, old(self).spec_capacity() as int, utf8_len(c as u32)),
        ensures
            final(self).wf(),
            final(self)@ == old(self)@ + low_bytes(c as u32, utf8_len(c as u32)),
            final(self).spec_capacity() == cap_after(
                old(self)@.len() as int,
                old(self).spec_capacity() as int,
                utf8_len(c as u32),
            ),
    {
        let mut v = c as u32;
        let n = char_len_utf8(c);
        let mut i: usize = 0;
        while i < n
            invariant
                self.wf(),
                n == utf8_len(c as u32),
                0 <= i <= n <= 4,
                push_fits(self@.len() as int, self.spec_capacity() as int, (n - i) as nat),
                cap_after(self@.len() as int, self.spec_capacity() as int, (n - i) as nat) == cap_after(
                    old(self)@.len() as int,
                    old(self).spec_capacity() as int,
                    n as nat,
                ),
                self@.len() == old(self)@.len() + i,
                self@ + low_bytes(v, (n - i) as nat) == old(self)@ + low_bytes(c as u32, n as nat),
            decreases n - i,
        {
            let ghost before = self@;
            proof {
                reveal_with_fuel(push_fits, 2);
            }
            self.push_byte((v % 256) as u8);
            proof {
                assert(low_bytes(v, (n - i) as nat) == seq![(v % 256) as u8] + low_bytes(
                    v / 256,
                    (n - i - 1) as nat,
                ));
                assert(self@ + low_bytes(v / 256, (n - i - 1) as nat) =~= before + low_bytes(
                    v,
                    (n - i) as nat,
                ));
            }
            v = v / 256;
            i = i + 1;
        }
        assert(self@ =~= self@ + low_bytes(v, 0));
    }

    /// Removes the last byte and returns it as a character (a single byte
    /// is always a scalar value).
    pub fn pop(&mut self) -> (r: Option<char>)
        requires
            old(self).wf(),
        ensures
            final(self).wf(),
            old(self)@.len() == 0 ==> r is None && final(self)@ == old(self)@,
            old(self)@.len() > 0 ==> r == Some(old(self)@.last() as char) && final(self)@ == old(
                self,
            )@.drop_last(),
    {
        let b = match self.vec.pop() {
            Some(b) => b,
            None => return None,
        };
        Some(b as char)
    }

    /// A string holding the bytes of `string`.
    pub fn from_str(string: &str) -> (r: Self)
        requires
            string.spec_bytes().len() <= isize::MAX,
        ensures
            r.wf(),
            r@ == string.spec_bytes(),
            r.spec_capacity() == string.spec_bytes().len(),
    {
        let bytes = string.as_bytes();
        proof {
            broadcast use vstd::layout::layout_of_primitives, vstd::layout::align_of_u8;
        }
        let mut vec: Vec<u8> = Vec::with_capacity(bytes.len());
        let mut i: usize = 0;
        while i < bytes.len()
            invariant
                bytes@ == string.spec_bytes(),
                bytes@.len() <= isize::MAX,
                0 <= i <= bytes@.len(),
                vec.wf(),
                vec@ == bytes@.subrange(0, i as int),
                vec.spec_capacity() == bytes@.len(),
            decreases bytes@.len() - i,
        {
            vec.push(bytes[i]);
            i = i + 1;
        }
        String { vec }
    }

    /// The stored bytes.
    pub fn as_bytes(&self) -> (r: &[u8])
        ensures
            r@ == self@,
    {
        self.vec.as_slice()
    }
}

/// An ASCII character pushed and then popped comes back, and the bytes
/// are as they were: it is stored as its one byte.
pub proof fn lemma_ascii_push_pop(s: Seq<u8>, c: char)
    requires
        (c as u32) < 0x80,
    ensures
        ({
            let t = s + low_bytes(c as u32, utf8_len(c as u32));
            &&& t.len() > 0
            &&& t.last() as char == c
            &&& t.drop_last() == s
        }),
{
    let v = c as u32;
    assert(low_bytes(v, 1) == seq![(v % 256) as u8] + low_bytes(v / 256, 0));
    assert(low_bytes(v, 1) =~= seq![v as u8]);
    let t = s + low_bytes(v, 1);
    assert(t.drop_last() =~= s);
    assert(t.last() == v as u8);
}

} // verus!
