//! Small host-side utilities: a fixed-capacity ring buffer, a minimal
//! argument list parser, and the framebuffer pixel format.

use vstd::prelude::*;
use vstd::string::StringSliceAdditionalSpecFns;
use vstd::utf8::encode_utf8;
use vstd::utf8::encode_utf8_decode_utf8;

verus! {

/// A fixed-capacity ring buffer: once `N` items are held, each push
/// overwrites the oldest slot. Used for cheaply tracking recent samples;
/// `items` hands the filled slots out in slot order, not insertion order.
pub struct CircularBuffer<T, const N: usize> {
    buf: Vec<T>,
    head: usize,
}

impl<T, const N: usize> CircularBuffer<T, N> {
    /// The filled slots, in slot order.
    pub closed spec fn items_seq(self) -> Seq<T> {
        self.buf@
    }

    /// The slot the next push on a full buffer overwrites.
    pub closed spec fn head_pos(self) -> int {
        self.head as int
    }

    /// The slot count never passes `N`, and the head points at the next
    /// slot to fill.
    pub closed spec fn wf(self) -> bool {
        self.buf@.len() <= N && (self.buf@.len() < N ==> self.head == self.buf@.len()) && (
        self.buf@.len() == N ==> (self.head < N || N == 0))
    }

    /// An empty buffer.
    pub fn new() -> (r: CircularBuffer<T, N>)
        ensures
            r.wf(),
            r.items_seq() == Seq::<T>::empty(),
            r.head_pos() == 0,
    {
        let r = CircularBuffer { buf: Vec::new(), head: 0 };
        proof {
            assert(r.buf@ =~= Seq::<T>::empty());
        }
        r
    }

    /// Empties the buffer.
    pub fn clear(&mut self)
        ensures
            final(self).wf(),
            final(self).items_seq() == Seq::<T>::empty(),
            final(self).head_pos() == 0,
    {
        self.buf = Vec::new();
        self.head = 0;
        proof {
            assert(self.buf@ =~= Seq::<T>::empty());
        }
    }

    /// How many slots are filled.
    pub fn len(&self) -> (r: usize)
        ensures
            r == self.items_seq().len(),
    {
        self.buf.len()
    }

    /// Appends an item, overwriting the oldest slot once the buffer holds
    /// `N` items.
    pub fn push(&mut self, item: T)
        requires
            old(self).wf(),
            N > 0,
        ensures
            final(self).wf(),
            old(self).items_seq().len() < N ==> final(self).items_seq() == old(
                self,
            ).items_seq().push(item),
            old(self).items_seq().len() == N ==> final(self).items_seq() == old(
                self,
            ).items_seq().update(old(self).head_pos(), item),
            final(self).head_pos() == (old(self).head_pos() + 1) % (N as int),
    {
        if self.buf.len() < N {
            self.buf.push(item);
        } else {
            self.buf[self.head] = item;
        }
        self.head = (self.head + 1) % N;
        proof {
            vstd::arithmetic::div_mod::lemma_mod_bound(
                old(self).head_pos() + 1,
                N as int,
            );
            if old(self).items_seq().len() + 1 < N {
                vstd::arithmetic::div_mod::lemma_small_mod(
                    (old(self).items_seq().len() + 1) as nat,
                    N as nat,
                );
            }
            if old(self).items_seq().len() + 1 == N {
                vstd::arithmetic::div_mod::lemma_mod_self_0(N as int);
            }
        }
    }

    /// The filled slots, in slot order.
    pub fn items(&self) -> (r: &[T])
        ensures
            r@ == self.items_seq(),
    {
        self.buf.as_slice()
    }
}

/// The char strings of an argument list.
pub open spec fn args_model(v: Seq<String>) -> Seq<Seq<char>> {
    v.map_values(|s: String| s@)
}

/// The first index holding exactly the given string, if any.
pub open spec fn spec_first_match(m: Seq<Seq<char>>, f: Seq<char>) -> Option<int>
    decreases m.len(),
{
    if m.len() == 0 {
        None
    } else if m[0] == f {
        Some(0)
    } else {
        match spec_first_match(m.skip(1), f) {
            None => None,
            Some(i) => Some(i + 1),
        }
    }
}

/// A minimal argument list parser: flags with a value are taken out, the
/// rest remains in order.
pub struct ArgParser {
    pub args: Vec<String>,
}

impl ArgParser {
    /// A parser over the given arguments.
    pub fn new(args: Vec<String>) -> (r: ArgParser)
        ensures
            r.args == args,
    {
        ArgParser { args }
    }

    /// Takes the value following the first occurrence of `flag` out of the
    /// arguments, together with the flag itself. Without the flag, or with
    /// the flag as the last argument, nothing changes and `None` comes
    /// back.
    #[verifier::loop_isolation(false)]
    pub fn take_flag(&mut self, flag: &str) -> (r: Option<String>)
        ensures
            ({
                let m = args_model(old(self).args@);
                match spec_first_match(m, flag@) {
                    Some(i) => {
                        if i + 1 < m.len() {
                            r matches Some(s) && s@ == m[i + 1] && args_model(final(self).args@)
                                == m.remove(i).remove(i)
                        } else {
                            r is None && *final(self) == *old(self)
                        }
                    },
                    None => r is None && *final(self) == *old(self),
                }
            }),
    {
        let ghost m = args_model(self.args@);
        proof {
            assert(m.skip(0) =~= m);
        }
        let fb = flag.as_bytes();
        let mut i: usize = 0;
        while i < self.args.len()
            invariant
                0 <= i <= self.args@.len(),
                self.args == old(self).args,
                m == args_model(self.args@),
                m.len() == self.args@.len(),
                forall|q: int| 0 <= q < m.len() ==> m[q] == self.args@[q]@,
                fb@ == flag.spec_bytes(),
                spec_first_match(m, flag@) == (match spec_first_match(m.skip(i as int), flag@) {
                    None => None::<int>,
                    Some(k) => Some(k + i),
                }),
            decreases self.args@.len() - i,
        {
            let ab = self.args[i].as_str().as_bytes();
            let eq = eq_bytes(ab, fb);
            proof {
                assert(ab@ == encode_utf8(self.args@[i as int]@));
                assert(fb@ == encode_utf8(flag@));
                if eq {
                    encode_utf8_decode_utf8(self.args@[i as int]@);
                    encode_utf8_decode_utf8(flag@);
                    assert(m[i as int] == flag@);
                } else {
                    assert(m[i as int] != flag@);
                }
                assert(m.skip(i as int)[0] == m[i as int]);
                assert(m.skip(i as int).skip(1) =~= m.skip(i as int + 1));
            }
            if eq {
                if i + 1 < self.args.len() {
                    let ghost a0 = self.args@;
                    let _flag_arg = self.args.remove(i);
                    let ghost a1 = self.args@;
                    let value = self.args.remove(i);
                    proof {
                        let ii = i as int;
                        assert(value == a0[ii + 1]);
                        assert forall|q: int|
                            0 <= q < args_model(self.args@).len() implies args_model(self.args@)[q]
                            == m.remove(ii).remove(ii)[q] by {
                            assert(self.args@[q] == a1.remove(ii)[q]);
                            if q < ii {
                                assert(a1[q] == a0[q]);
                            } else {
                                assert(a1.remove(ii)[q] == a1[q + 1]);
                                assert(a1[q + 1] == a0[q + 2]);
                            }
                            assert(m.remove(ii).len() == m.len() - 1);
                        }
                        assert(args_model(self.args@) =~= m.remove(ii).remove(ii));
                    }
                    return Some(value);
                } else {
                    proof {
                        let ii = i as int;
                        assert(m.skip(ii)[0] == flag@);
                        assert(m.skip(ii).len() > 0);
                        assert(spec_first_match(m.skip(ii), flag@) == Some(0int));
                        assert(spec_first_match(m, flag@) == Some(ii));
                    }
                    return None;
                }
            }
            i = i + 1;
        }
        proof {
            assert(m.skip(i as int).len() == 0);
            assert(spec_first_match(m.skip(i as int), flag@) is None);
        }
        None
    }

    /// The arguments that remain.
    pub fn remaining(self) -> (r: Vec<String>)
        ensures
            r == self.args,
    {
        self.args
    }
}

/// Whether two byte strings hold the same bytes.
fn eq_bytes(a: &[u8], b: &[u8]) -> (r: bool)
    ensures
        r == (a@ == b@),
{
    if a.len() != b.len() {
        return false;
    }
    let mut i: usize = 0;
    while i < a.len()
        invariant
            0 <= i <= a@.len(),
            a@.len() == b@.len(),
            forall|k: int| 0 <= k < i ==> a@[k] == b@[k],
        decreases a@.len() - i,
    {
        if a[i] != b[i] {
            return false;
        }
        i = i + 1;
    }
    proof {
        assert(a@ =~= b@);
    }
    true
}

/// Splits a packed R3G3B2 framebuffer byte into its red (bits 0-2), green
/// (bits 3-5) and blue (bits 6-7) components.
pub fn parse_r3g3b2(color: u8) -> (r: (u8, u8, u8))
    ensures
        r.0 == color & 0b111,
        r.1 == (color >> 3) & 0b111,
        r.2 == (color >> 6) & 0b11,
{
    (color & 0b111, (color >> 3) & 0b111, (color >> 6) & 0b11)
}

} // verus!
