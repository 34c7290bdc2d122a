//! Small helpers behind the decorative report header: a ring of four
//! addresses and the width of a column of labels.

use vstd::prelude::*;
use rand::rngs::StdRng;
use crate::rng::draw_u16;
use vstd::string::StringSliceAdditionalSpecFns;

verus! {

/// Four addresses handed out in turn.
pub struct Address {
    addrs: Vec<u16>,
    index: u8,
}

impl Address {
    /// The addresses, in order.
    pub closed spec fn addresses(&self) -> Seq<u16> {
        self.addrs@
    }

    /// The position of the next turn.
    pub closed spec fn position(&self) -> u8 {
        self.index
    }

    /// The number of addresses in the ring.
    pub fn size() -> (r: usize)
        ensures
            r == 4,
    {
        4
    }

    /// A ring of four addresses drawn from `rng`, starting at the first.
    pub fn new(rng: &mut StdRng) -> (r: Address)
        ensures
            r.addresses().len() == 4,
            r.position() == 0,
    {
        let mut addrs: Vec<u16> = Vec::new();
        let mut i: usize = 0;
        while i < Self::size()
            invariant
                i <= 4,
                addrs@.len() == i,
            decreases 4 - i,
        {
            addrs.push(draw_u16(rng));
            i = i + 1;
        }
        Address { addrs, index: 0 }
    }

    /// The address for this turn; the turn counter starts again from 0 once
    /// it reaches 255.
    pub fn next(&mut self) -> (r: u16)
        requires
            old(self).addresses().len() == 4,
        ensures
            final(self).addresses() == old(self).addresses(),
            ({
                let i: int = if old(self).position() == 255 { 0 } else { old(self).position() as int };
                &&& r == old(self).addresses()[i % 4]
                &&& final(self).position() == i + 1
            }),
    {
        if self.index == u8::MAX {
            self.index = 0;
        }
        let result = self.addrs[self.index as usize % Self::size()];
        self.index = self.index + 1;
        result
    }
}

/// The length in bytes of the UTF-8 encoding of `s`, as `str::len` gives it.
pub open spec fn byte_len(s: String) -> nat {
    (vstd::utf8::encode_utf8(s@).len() as usize) as nat
}

/// The largest byte length among `checks`; 0 when there is none.
pub open spec fn max_byte_len(checks: Seq<String>) -> nat
    decreases checks.len(),
{
    if checks.len() == 0 {
        0
    } else {
        let rest = max_byte_len(checks.drop_last());
        let last = byte_len(checks.last());
        if last > rest {
            last
        } else {
            rest
        }
    }
}

/// The byte length of the longest label; 0 when there is none.
pub fn get_max_length(checks: &[String]) -> (r: usize)
    ensures
        r == max_byte_len(checks@),
{
    let mut len: usize = 0;
    let mut i: usize = 0;
    while i < checks.len()
        invariant
            i <= checks@.len(),
            len == max_byte_len(checks@.take(i as int)),
        decreases checks.len() - i,
    {
        assert(checks@.take(i + 1).drop_last() =~= checks@.take(i as int));
        let text = checks[i].as_str();
        let l = text.len();
        assert(text@ == checks@[i as int]@);
        assert(l == text.spec_bytes().len() as usize);
        assert(l == byte_len(checks@[i as int]));
        assert(checks@.take(i + 1).last() == checks@[i as int]);
        if l > len {
            len = l;
        }
        i = i + 1;
    }
    assert(checks@.take(checks@.len() as int) =~= checks@);
    len
}

} // verus!
