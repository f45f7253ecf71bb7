//! Byte cursors over DNS payloads: a fixed 512-byte buffer for UDP and a
//! growable one for TCP, with big-endian integers and the name codec.
use crate::name::{
    check_labels, join_label, labels, labels_fit, labels_wire, lemma_label_of_prefix_fits,
    lemma_labels_len, lemma_labels_step, lemma_labels_wire_push, lower_bytes, name_walk,
    name_wire, opt_int, read_name, text_of, utf8_lossy, WireError, DOT, MAX_JUMPS,
    MAX_LABEL_LEN,
};
use vstd::prelude::*;
use vstd::string::StringSliceAdditionalSpecFns;

verus! {

broadcast use vstd::array::group_array_axioms;

/// Size of a UDP DNS payload.
pub const MAX_SIZE: usize = 512;

/// `s` with `w` written over it from offset `p` on, growing it where `w` runs
/// past its end.
pub open spec fn splice(s: Seq<u8>, p: int, w: Seq<u8>) -> Seq<u8> {
    s.take(p) + w + (if p + w.len() < s.len() {
        s.skip(p + w.len())
    } else {
        Seq::<u8>::empty()
    })
}

/// The big-endian 16-bit value at offset `p`.
pub open spec fn u16_at(s: Seq<u8>, p: int) -> u16 {
    (s[p] * 256 + s[p + 1]) as u16
}

/// The big-endian 32-bit value at offset `p`.
pub open spec fn u32_at(s: Seq<u8>, p: int) -> u32 {
    (u16_at(s, p) * 65536 + u16_at(s, p + 2)) as u32
}

/// The big-endian bytes of a 16-bit value.
pub open spec fn u16_wire(v: u16) -> Seq<u8> {
    seq![(v / 256) as u8, (v % 256) as u8]
}

/// The big-endian bytes of a 32-bit value.
pub open spec fn u32_wire(v: u32) -> Seq<u8> {
    u16_wire((v / 65536) as u16) + u16_wire((v % 65536) as u16)
}

/// A byte cursor over a DNS payload.
///
/// A buffer holds `bytes()`, has its cursor at `cursor()` and may grow up to
/// `limit()` bytes. Reads stop at the end of what is held; writes fail only
/// past the limit, and write over or append to what is held.
pub trait ByteBuffer: Sized {
    spec fn bytes(&self) -> Seq<u8>;

    spec fn cursor(&self) -> nat;

    spec fn limit(&self) -> nat;

    spec fn wf(&self) -> bool;

    proof fn lemma_wf(&self)
        requires
            self.wf(),
        ensures
            self.cursor() <= self.bytes().len() <= self.limit() <= usize::MAX,
    ;

    /// The cursor.
    fn head(&self) -> (r: usize)
        requires
            self.wf(),
        ensures
            r == self.cursor(),
    ;

    /// How many bytes the buffer holds.
    fn size(&self) -> (r: usize)
        requires
            self.wf(),
        ensures
            r == self.bytes().len(),
    ;

    /// How many bytes can still be written from the cursor on.
    fn remaining(&self) -> (r: usize)
        requires
            self.wf(),
        ensures
            r == self.limit() - self.cursor(),
    ;

    /// Moves the cursor `steps` bytes on, within what is held.
    fn step(&mut self, steps: usize) -> (r: Result<(), WireError>)
        requires
            old(self).wf(),
        ensures
            final(self).wf(),
            r is Ok <==> old(self).cursor() + steps <= old(self).bytes().len(),
            r is Ok ==> final(self).bytes() == old(self).bytes() && final(self).limit()
                == old(self).limit() && final(self).cursor() == old(self).cursor() + steps,
            r is Err ==> *final(self) == *old(self) && r->Err_0 == WireError::EndOfBuffer,
    ;

    /// Puts the cursor at `offset`, within what is held.
    fn seek(&mut self, offset: usize) -> (r: Result<(), WireError>)
        requires
            old(self).wf(),
        ensures
            final(self).wf(),
            r is Ok <==> offset <= old(self).bytes().len(),
            r is Ok ==> final(self).bytes() == old(self).bytes() && final(self).limit()
                == old(self).limit() && final(self).cursor() == offset,
            r is Err ==> *final(self) == *old(self) && r->Err_0 == WireError::EndOfBuffer,
    ;

    /// Reads the byte at the cursor and moves past it.
    fn read(&mut self) -> (r: Result<u8, WireError>)
        requires
            old(self).wf(),
        ensures
            final(self).wf(),
            r is Ok <==> old(self).cursor() < old(self).bytes().len(),
            r is Ok ==> r->Ok_0 == old(self).bytes()[old(self).cursor() as int] && final(self).bytes() == old(self).bytes() && final(self).limit() == old(self).limit()
                && final(self).cursor() == old(self).cursor() + 1,
            r is Err ==> *final(self) == *old(self) && r->Err_0 == WireError::EndOfBuffer,
    ;

    /// Reads a big-endian 16-bit value.
    fn read_u16(&mut self) -> (r: Result<u16, WireError>)
        requires
            old(self).wf(),
        ensures
            final(self).wf(),
            r is Ok <==> old(self).cursor() + 2 <= old(self).bytes().len(),
            r is Ok ==> r->Ok_0 == u16_at(old(self).bytes(), old(self).cursor() as int) && final(self).bytes() == old(self).bytes() && final(self).limit() == old(self).limit()
                && final(self).cursor() == old(self).cursor() + 2,
            r is Err ==> *final(self) == *old(self) && r->Err_0 == WireError::EndOfBuffer,
    {
        proof {
            self.lemma_wf();
        }
        if self.size() - self.head() < 2 {
            return Err(WireError::EndOfBuffer);
        }
        let hi = self.read()?;
        let lo = self.read()?;
        Ok((hi as u16) * 256 + lo as u16)
    }

    /// Reads a big-endian 32-bit value.
    fn read_u32(&mut self) -> (r: Result<u32, WireError>)
        requires
            old(self).wf(),
        ensures
            final(self).wf(),
            r is Ok <==> old(self).cursor() + 4 <= old(self).bytes().len(),
            r is Ok ==> r->Ok_0 == u32_at(old(self).bytes(), old(self).cursor() as int) && final(self).bytes() == old(self).bytes() && final(self).limit() == old(self).limit()
                && final(self).cursor() == old(self).cursor() + 4,
            r is Err ==> *final(self) == *old(self) && r->Err_0 == WireError::EndOfBuffer,
    {
        proof {
            self.lemma_wf();
        }
        if self.size() - self.head() < 4 {
            return Err(WireError::EndOfBuffer);
        }
        let hi = self.read_u16()?;
        let lo = self.read_u16()?;
        Ok((hi as u32) * 65536 + lo as u32)
    }

    /// Writes a byte at the cursor and moves past it.
    fn write(&mut self, data: u8) -> (r: Result<(), WireError>)
        requires
            old(self).wf(),
        ensures
            final(self).wf(),
            r is Ok <==> old(self).cursor() + 1 <= old(self).limit(),
            r is Ok ==> final(self).bytes() == splice(
                old(self).bytes(),
                old(self).cursor() as int,
                seq![data],
            ) && final(self).limit() == old(self).limit() && final(self).cursor() == old(self).cursor() + 1,
            r is Err ==> *final(self) == *old(self) && r->Err_0 == WireError::EndOfBuffer,
    ;

    /// Writes a byte at the cursor and moves past it.
    fn write_u8(&mut self, data: u8) -> (r: Result<(), WireError>)
        requires
            old(self).wf(),
        ensures
            final(self).wf(),
            r is Ok <==> old(self).cursor() + 1 <= old(self).limit(),
            r is Ok ==> final(self).bytes() == splice(
                old(self).bytes(),
                old(self).cursor() as int,
                seq![data],
            ) && final(self).limit() == old(self).limit() && final(self).cursor() == old(self).cursor() + 1,
            r is Err ==> *final(self) == *old(self) && r->Err_0 == WireError::EndOfBuffer,
    {
        self.write(data)
    }

    /// Writes a big-endian 16-bit value.
    fn write_u16(&mut self, data: u16) -> (r: Result<(), WireError>)
        requires
            old(self).wf(),
        ensures
            final(self).wf(),
            r is Ok <==> old(self).cursor() + 2 <= old(self).limit(),
            r is Ok ==> final(self).bytes() == splice(
                old(self).bytes(),
                old(self).cursor() as int,
                u16_wire(data),
            ) && final(self).limit() == old(self).limit() && final(self).cursor() == old(self).cursor() + 2,
            r is Err ==> *final(self) == *old(self) && r->Err_0 == WireError::EndOfBuffer,
    {
        proof {
            self.lemma_wf();
        }
        if self.remaining() < 2 {
            return Err(WireError::EndOfBuffer);
        }
        let ghost s0 = self.bytes();
        let ghost c0 = self.cursor() as int;
        self.write((data / 256) as u8)?;
        self.write((data % 256) as u8)?;
        proof {
            lemma_splice_concat(s0, c0, seq![(data / 256) as u8], seq![(data % 256) as u8]);
            assert(seq![(data / 256) as u8] + seq![(data % 256) as u8] =~= u16_wire(data));
        }
        Ok(())
    }

    /// Writes a big-endian 32-bit value.
    fn write_u32(&mut self, data: u32) -> (r: Result<(), WireError>)
        requires
            old(self).wf(),
        ensures
            final(self).wf(),
            r is Ok <==> old(self).cursor() + 4 <= old(self).limit(),
            r is Ok ==> final(self).bytes() == splice(
                old(self).bytes(),
                old(self).cursor() as int,
                u32_wire(data),
            ) && final(self).limit() == old(self).limit() && final(self).cursor() == old(self).cursor() + 4,
            r is Err ==> *final(self) == *old(self) && r->Err_0 == WireError::EndOfBuffer,
    {
        proof {
            self.lemma_wf();
        }
        if self.remaining() < 4 {
            return Err(WireError::EndOfBuffer);
        }
        let ghost s0 = self.bytes();
        let ghost c0 = self.cursor() as int;
        self.write_u16((data / 65536) as u16)?;
        self.write_u16((data % 65536) as u16)?;
        proof {
            lemma_splice_concat(s0, c0, u16_wire((data / 65536) as u16), u16_wire((data % 65536) as u16));
        }
        Ok(())
    }

    /// The byte at `offset`, leaving the cursor where it is.
    fn get(&self, offset: usize) -> (r: Result<u8, WireError>)
        requires
            self.wf(),
        ensures
            r is Ok <==> offset < self.bytes().len(),
            r is Ok ==> r->Ok_0 == self.bytes()[offset as int],
            r is Err ==> r->Err_0 == WireError::EndOfBuffer,
    ;

    /// The `len` bytes from `offset` on, leaving the cursor where it is.
    fn get_range(&self, offset: usize, len: usize) -> (r: Result<&[u8], WireError>)
        requires
            self.wf(),
        ensures
            r is Ok <==> offset + len <= self.bytes().len(),
            r is Ok ==> r->Ok_0@ == self.bytes().subrange(offset as int, offset + len),
            r is Err ==> r->Err_0 == WireError::EndOfBuffer,
    ;

    /// Overwrites the byte at `offset`, leaving the cursor where it is.
    fn set(&mut self, offset: usize, data: u8) -> (r: Result<(), WireError>)
        requires
            old(self).wf(),
        ensures
            final(self).wf(),
            r is Ok <==> offset < old(self).bytes().len(),
            r is Ok ==> final(self).bytes() == old(self).bytes().update(offset as int, data)
                && final(self).limit() == old(self).limit() && final(self).cursor() == old(self).cursor(),
            r is Err ==> *final(self) == *old(self) && r->Err_0 == WireError::EndOfBuffer,
    ;

    /// Overwrites the two bytes at `offset` with a big-endian 16-bit value.
    fn set_u16(&mut self, offset: usize, data: u16) -> (r: Result<(), WireError>)
        requires
            old(self).wf(),
        ensures
            final(self).wf(),
            r is Ok <==> offset + 2 <= old(self).bytes().len(),
            r is Ok ==> final(self).bytes() == splice(
                old(self).bytes(),
                offset as int,
                u16_wire(data),
            ) && final(self).limit() == old(self).limit() && final(self).cursor() == old(self).cursor(),
            r is Err ==> *final(self) == *old(self) && r->Err_0 == WireError::EndOfBuffer,
    {
        proof {
            self.lemma_wf();
        }
        if offset >= self.size() || self.size() - offset < 2 {
            return Err(WireError::EndOfBuffer);
        }
        let ghost s0 = self.bytes();
        self.set(offset, (data / 256) as u8)?;
        self.set(offset + 1, (data % 256) as u8)?;
        proof {
            assert(self.bytes() =~= splice(s0, offset as int, u16_wire(data)));
        }
        Ok(())
    }

    /// Reads the name at the cursor, following compression pointers, and
    /// appends it, lower-cased and dotted, to `qname`. The cursor ends past
    /// the name, or past the first pointer where one was followed. On an
    /// error neither the buffer nor `qname` changes.
    fn read_qname(&mut self, qname: &mut String) -> (r: Result<(), WireError>)
        requires
            old(self).wf(),
        ensures
            final(self).wf(),
            match read_name(old(self).bytes(), old(self).cursor() as int) {
                Ok((n, c)) => r is Ok && final(qname)@ == old(qname)@ + text_of(n) && final(self).bytes() == old(self).bytes() && final(self).limit() == old(self).limit()
                    && final(self).cursor() == c,
                Err(e) => r == Err::<(), WireError>(e) && *final(self) == *old(self)
                    && *final(qname) == *old(qname),
            },
    {
        proof {
            self.lemma_wf();
        }
        let ghost data = self.bytes();
        let ghost start = self.cursor() as int;
        let mut pos: usize = self.head();
        let mut jumps: u32 = 0;
        let mut resume: Option<usize> = None;
        let mut acc: Vec<u8> = Vec::new();
        loop
            invariant
                self.wf(),
                *self == *old(self),
                *qname == *old(qname),
                self.bytes() == data,
                self.cursor() == start,
                self.bytes().len() <= usize::MAX,
                jumps <= MAX_JUMPS,
                name_walk(data, pos as int, (MAX_JUMPS - jumps) as nat, acc@, opt_int(resume))
                    == read_name(data, start),
                resume matches Some(r) ==> r <= data.len(),
            decreases MAX_JUMPS - jumps, data.len() - pos,
        {
            let len_byte = match self.get(pos) {
                Ok(b) => b,
                Err(e) => {
                    return Err(e);
                },
            };
            if len_byte >= 0xC0 {
                let lo = match self.get(pos + 1) {
                    Ok(b) => b,
                    Err(e) => {
                        return Err(e);
                    },
                };
                if jumps == MAX_JUMPS {
                    return Err(WireError::TooManyJumps);
                }
                if resume.is_none() {
                    resume = Some(pos + 2);
                }
                pos = ((len_byte - 0xC0) as usize) * 256 + lo as usize;
                jumps = jumps + 1;
            } else if len_byte == 0 {
                let end = match resume {
                    Some(r) => r,
                    None => pos + 1,
                };
                self.seek(end)?;
                let text = utf8_lossy(acc.as_slice());
                qname.append(text.as_str());
                return Ok(());
            } else {
                let label = self.get_range(pos + 1, len_byte as usize)?;
                let ghost acc0 = acc@;
                if acc.len() > 0 {
                    acc.push(DOT);
                }
                let ghost mid = acc@;
                let mut i: usize = 0;
                while i < label.len()
                    invariant
                        i <= label@.len(),
                        acc@ == mid + lower_bytes(label@.take(i as int)),
                    decreases label@.len() - i,
                {
                    let b = label[i];
                    let lb = if 65 <= b && b <= 90 {
                        b + 32
                    } else {
                        b
                    };
                    acc.push(lb);
                    i = i + 1;
                    proof {
                        assert(label@.take(i as int) =~= label@.take(i - 1).push(b));
                        assert(lower_bytes(label@.take(i as int)) =~= lower_bytes(
                            label@.take(i - 1),
                        ).push(lb));
                    }
                }
                proof {
                    assert(label@.take(i as int) =~= label@);
                    assert(acc@ =~= join_label(acc0, lower_bytes(label@)));
                }
                pos = pos + 1 + len_byte as usize;
            }
        }
    }

    /// Writes `qname` as length-prefixed labels and a zero byte, without
    /// compression. Fails, writing nothing, when a label is longer than 63
    /// bytes or the name does not fit.
    fn write_qname(&mut self, qname: &str) -> (r: Result<(), WireError>)
        requires
            old(self).wf(),
        ensures
            final(self).wf(),
            !labels_fit(qname.spec_bytes()) ==> r == Err::<(), WireError>(WireError::LabelTooLong),
            labels_fit(qname.spec_bytes()) && old(self).cursor() + name_wire(qname.spec_bytes()).len()
                > old(self).limit() ==> r == Err::<(), WireError>(WireError::EndOfBuffer),
            r is Ok <==> labels_fit(qname.spec_bytes()) && old(self).cursor() + name_wire(
                qname.spec_bytes(),
            ).len() <= old(self).limit(),
            r is Ok ==> final(self).bytes() == splice(
                old(self).bytes(),
                old(self).cursor() as int,
                name_wire(qname.spec_bytes()),
            ) && final(self).limit() == old(self).limit() && final(self).cursor() == old(self).cursor() + name_wire(qname.spec_bytes()).len(),
            r is Err ==> *final(self) == *old(self),
    {
        proof {
            self.lemma_wf();
        }
        let n = qname.as_bytes();
        let ghost nb = n@;
        proof {
            lemma_name_wire_len(nb);
        }
        // Check every label before writing anything.
        if !check_labels(n) {
            return Err(WireError::LabelTooLong);
        }
        if self.remaining() < 2 || self.remaining() - 2 < n.len() {
            return Err(WireError::EndOfBuffer);
        }
        let ghost s0 = self.bytes();
        let ghost c0 = self.cursor() as int;
        // Write the labels, each when its end is reached.
        let mut i: usize = 0;
        let mut s: usize = 0;
        while i <= n.len()
            invariant
                i <= nb.len() + 1,
                n@ == nb,
                i <= nb.len() ==> s <= i,
                s <= nb.len() + 1,
                0 <= c0 <= s0.len(),
                nb == qname.spec_bytes(),
                labels_fit(nb),
                c0 + nb.len() + 2 <= self.limit(),
                self.limit() <= usize::MAX,
                self.limit() == old(self).limit(),
                self.wf(),
                i <= nb.len() ==> labels(nb.take(i as int)).last() == nb.subrange(s as int, i as int),
                i <= nb.len() ==> labels_wire(labels(nb.take(i as int)).drop_last()).len() == s,
                i <= nb.len() ==> self.bytes() == splice(s0, c0, labels_wire(labels(nb.take(i as int)).drop_last())),
                i > nb.len() ==> self.bytes() == splice(s0, c0, labels_wire(labels(nb))),
                i > nb.len() ==> s == nb.len() + 1,
                self.cursor() == c0 + s,
            decreases nb.len() + 1 - i,
        {
            if i == n.len() || n[i] == DOT {
                // Emit the label nb[s..i].
                proof {
                    lemma_labels_len(nb.take(i as int));
                }
                let len = i - s;
                let ghost before = self.bytes();
                let ghost ls = labels(nb.take(i as int));
                proof {
                    lemma_label_of_prefix_fits(nb, i as int);
                    self.lemma_wf();
                    lemma_wf_splice_len(s0, c0, labels_wire(ls.drop_last()));
                }
                let _ = self.write(len as u8);
                let mut k: usize = s;
                while k < i
                    invariant
                        s <= k <= i,
                        i <= nb.len(),
                        n@ == nb,
                        self.wf(),
                        c0 + nb.len() + 2 <= self.limit(),
                        self.limit() <= usize::MAX,
                        self.limit() == old(self).limit(),
                        self.cursor() == c0 + k + 1,
                        self.bytes() == splice(before, c0 + s, seq![len as u8] + nb.subrange(s as int, k as int)),
                        before.len() >= c0 + s,
                        0 <= c0 <= s0.len(),
                        len == i - s,
                        len <= MAX_LABEL_LEN,
                    decreases i - k,
                {
                    let _ = self.write(n[k]);
                    proof {
                        lemma_splice_concat(before, c0 + s, seq![len as u8] + nb.subrange(s as int, k as int), seq![n[k as int]]);
                        assert(seq![len as u8] + nb.subrange(s as int, k as int) + seq![nb[k as int]]
                            =~= seq![len as u8] + nb.subrange(s as int, k + 1));
                    }
                    k = k + 1;
                }
                proof {
                    lemma_labels_wire_push(ls.drop_last(), ls.last());
                    assert(ls.drop_last().push(ls.last()) =~= ls);
                    lemma_splice_concat(s0, c0, labels_wire(ls.drop_last()), seq![len as u8] + nb.subrange(s as int, i as int));
                    assert(labels_wire(ls.drop_last()) + (seq![len as u8] + nb.subrange(s as int, i as int))
                        =~= labels_wire(ls));
                }
                if i < n.len() {
                    proof {
                        lemma_labels_step(nb, i as int);
                        assert(labels(nb.take(i + 1)).drop_last() =~= ls);
                        assert(nb.subrange(i + 1, i + 1) =~= Seq::<u8>::empty());
                    }
                } else {
                    proof {
                        assert(nb.take(i as int) =~= nb);
                    }
                }
                s = i + 1;
            } else {
                proof {
                    lemma_labels_step(nb, i as int);
                    lemma_labels_len(nb.take(i as int));
                    let ls = labels(nb.take(i as int));
                    assert(labels(nb.take(i + 1)).drop_last() =~= ls.drop_last());
                    assert(nb.subrange(s as int, i + 1) =~= nb.subrange(s as int, i as int).push(nb[i as int]));
                }
            }
            i = i + 1;
        }
        proof {
            lemma_name_wire_len(nb);
        }
        let _ = self.write(0);
        proof {
            lemma_splice_concat(s0, c0, labels_wire(labels(nb)), seq![0u8]);
            assert(labels_wire(labels(nb)) + seq![0u8] =~= name_wire(nb));
        }
        Ok(())
    }
}

/// Writes `data` right after `w`, which was written at `c0` over `s0`, where
/// there is room for it.
pub(crate) fn put_u16<B: ByteBuffer>(
    buffer: &mut B,
    data: u16,
    Ghost(s0): Ghost<Seq<u8>>,
    Ghost(c0): Ghost<int>,
    Ghost(w): Ghost<Seq<u8>>,
)
    requires
        old(buffer).wf(),
        0 <= c0 <= s0.len(),
        old(buffer).bytes() == splice(s0, c0, w),
        old(buffer).cursor() == c0 + w.len(),
        old(buffer).cursor() + 2 <= old(buffer).limit(),
    ensures
        final(buffer).wf(),
        final(buffer).bytes() == splice(s0, c0, w + u16_wire(data)),
        final(buffer).cursor() == c0 + w.len() + 2,
        final(buffer).limit() == old(buffer).limit(),
{
    let _ = buffer.write_u16(data);
    proof {
        lemma_splice_concat(s0, c0, w, u16_wire(data));
    }
}

/// As `put_u16`, for a 32-bit value.
pub(crate) fn put_u32<B: ByteBuffer>(
    buffer: &mut B,
    data: u32,
    Ghost(s0): Ghost<Seq<u8>>,
    Ghost(c0): Ghost<int>,
    Ghost(w): Ghost<Seq<u8>>,
)
    requires
        old(buffer).wf(),
        0 <= c0 <= s0.len(),
        old(buffer).bytes() == splice(s0, c0, w),
        old(buffer).cursor() == c0 + w.len(),
        old(buffer).cursor() + 4 <= old(buffer).limit(),
    ensures
        final(buffer).wf(),
        final(buffer).bytes() == splice(s0, c0, w + u32_wire(data)),
        final(buffer).cursor() == c0 + w.len() + 4,
        final(buffer).limit() == old(buffer).limit(),
{
    let _ = buffer.write_u32(data);
    proof {
        lemma_splice_concat(s0, c0, w, u32_wire(data));
    }
}

/// As `put_u16`, for a name whose labels fit.
pub(crate) fn put_name<B: ByteBuffer>(
    buffer: &mut B,
    name: &str,
    Ghost(s0): Ghost<Seq<u8>>,
    Ghost(c0): Ghost<int>,
    Ghost(w): Ghost<Seq<u8>>,
)
    requires
        old(buffer).wf(),
        0 <= c0 <= s0.len(),
        labels_fit(name.spec_bytes()),
        old(buffer).bytes() == splice(s0, c0, w),
        old(buffer).cursor() == c0 + w.len(),
        old(buffer).cursor() + name.spec_bytes().len() + 2 <= old(buffer).limit(),
    ensures
        final(buffer).wf(),
        final(buffer).bytes() == splice(s0, c0, w + name_wire(name.spec_bytes())),
        final(buffer).cursor() == c0 + w.len() + name.spec_bytes().len() + 2,
        final(buffer).limit() == old(buffer).limit(),
{
    proof {
        lemma_name_wire_len(name.spec_bytes());
    }
    let _ = buffer.write_qname(name);
    proof {
        lemma_splice_concat(s0, c0, w, name_wire(name.spec_bytes()));
    }
}

/// As `put_u16`, for the bytes of `data`.
pub(crate) fn put_all<B: ByteBuffer>(
    buffer: &mut B,
    data: &[u8],
    Ghost(s0): Ghost<Seq<u8>>,
    Ghost(c0): Ghost<int>,
    Ghost(w): Ghost<Seq<u8>>,
)
    requires
        old(buffer).wf(),
        0 <= c0 <= s0.len(),
        old(buffer).bytes() == splice(s0, c0, w),
        old(buffer).cursor() == c0 + w.len(),
        old(buffer).cursor() + data@.len() <= old(buffer).limit(),
    ensures
        final(buffer).wf(),
        final(buffer).bytes() == splice(s0, c0, w + data@),
        final(buffer).cursor() == c0 + w.len() + data@.len(),
        final(buffer).limit() == old(buffer).limit(),
{
    let mut i: usize = 0;
    while i < data.len()
        invariant
            buffer.wf(),
            0 <= c0 <= s0.len(),
            i <= data@.len(),
            c0 + w.len() + data@.len() <= buffer.limit(),
            buffer.limit() == old(buffer).limit(),
            buffer.bytes() == splice(s0, c0, w + data@.take(i as int)),
            buffer.cursor() == c0 + w.len() + i,
        decreases data@.len() - i,
    {
        let _ = buffer.write(data[i]);
        proof {
            lemma_splice_concat(s0, c0, w + data@.take(i as int), seq![data@[i as int]]);
            assert(w + data@.take(i as int) + seq![data@[i as int]] =~= w + data@.take(i + 1));
        }
        i = i + 1;
    }
    proof {
        assert(data@.take(i as int) =~= data@);
    }
}

/// Overwriting `x`, inside what was written, with bytes `y` of its length.
pub proof fn lemma_splice_patch(s: Seq<u8>, c: int, a: Seq<u8>, x: Seq<u8>, b: Seq<u8>, y: Seq<u8>)
    requires
        0 <= c <= s.len(),
        x.len() == y.len(),
    ensures
        splice(splice(s, c, a + x + b), c + a.len(), y) =~= splice(s, c, a + y + b),
{
    let t = splice(s, c, a + x + b);
    let u = splice(t, c + a.len(), y);
    let v = splice(s, c, a + y + b);
    assert(u.len() == v.len());
    assert forall|i: int| 0 <= i < u.len() implies u[i] == v[i] by {
        if i < c {
        } else if i < c + a.len() {
            assert(u[i] == t[i]);
            assert(t[i] == (a + x + b)[i - c]);
            assert(v[i] == (a + y + b)[i - c]);
        } else if i < c + a.len() + y.len() {
            assert(u[i] == y[i - c - a.len()]);
            assert(v[i] == (a + y + b)[i - c]);
        } else if i < c + a.len() + x.len() + b.len() {
            assert(u[i] == t[i]);
            assert(t[i] == (a + x + b)[i - c]);
            assert(v[i] == (a + y + b)[i - c]);
        } else {
        }
    }
}

/// Writing `w1` and then `w2` right after it is writing `w1 + w2`.
pub proof fn lemma_splice_concat(s: Seq<u8>, p: int, w1: Seq<u8>, w2: Seq<u8>)
    requires
        0 <= p <= s.len(),
    ensures
        splice(splice(s, p, w1), p + w1.len(), w2) =~= splice(s, p, w1 + w2),
        splice(s, p, w1).len() == (if p + w1.len() < s.len() { s.len() as int } else { p + w1.len() }),
{
    let t = splice(s, p, w1);
    assert(t.take(p + w1.len()) =~= s.take(p) + w1);
    if p + w1.len() + w2.len() < t.len() {
        assert(t.skip(p + w1.len() + w2.len()) =~= s.skip(p + w1.len() + w2.len()));
    }
}

pub proof fn lemma_wf_splice_len(s: Seq<u8>, p: int, w: Seq<u8>)
    requires
        0 <= p <= s.len(),
    ensures
        splice(s, p, w).len() >= p + w.len(),
        splice(s, p, w).len() >= s.len(),
        splice(s, p, w).subrange(p, p + w.len()) =~= w,
        splice(s, p, w).take(p) =~= s.take(p),
{
}

/// The wire form of a name is two bytes longer than the name.
pub proof fn lemma_name_wire_len(n: Seq<u8>)
    ensures
        labels_wire(labels(n)).len() == n.len() + 1,
        name_wire(n).len() == n.len() + 2,
        labels_wire(labels(n).drop_last()).len() + labels(n).last().len() + 1 == labels_wire(labels(n)).len(),
    decreases n.len(),
{
    lemma_labels_len(n);
    let ls = labels(n);
    assert(ls.drop_last().push(ls.last()) =~= ls);
    lemma_labels_wire_push(ls.drop_last(), ls.last());
    if n.len() > 0 {
        let m = n.drop_last();
        lemma_name_wire_len(m);
        lemma_labels_len(m);
        let pm = labels(m);
        if n.last() == DOT {
            assert(ls.drop_last() =~= pm);
        } else {
            assert(ls.drop_last() =~= pm.drop_last());
        }
    }
}

/// A fixed buffer of 512 bytes, the size of a UDP DNS payload.
pub struct BytePacketBuffer {
    pub buf: [u8; 512],
    pub head: usize,
}

impl BytePacketBuffer {
    /// A zeroed buffer with its cursor at the start.
    pub fn new() -> (r: BytePacketBuffer)
        ensures
            r.head == 0,
            r.buf@ == Seq::new(512, |i: int| 0u8),
            r.wf(),
    {
        let buf = [0u8; 512];
        assert(buf@ =~= Seq::new(512, |i: int| 0u8));
        BytePacketBuffer { buf, head: 0 }
    }
}

impl ByteBuffer for BytePacketBuffer {
    open spec fn bytes(&self) -> Seq<u8> {
        self.buf@
    }

    open spec fn cursor(&self) -> nat {
        self.head as nat
    }

    open spec fn limit(&self) -> nat {
        MAX_SIZE as nat
    }

    open spec fn wf(&self) -> bool {
        self.head <= MAX_SIZE
    }

    proof fn lemma_wf(&self) {
    }

    fn head(&self) -> (r: usize) {
        self.head
    }

    fn size(&self) -> (r: usize) {
        MAX_SIZE
    }

    fn remaining(&self) -> (r: usize) {
        MAX_SIZE - self.head
    }

    fn step(&mut self, steps: usize) -> (r: Result<(), WireError>) {
        proof {
            assert(old(self).bytes().len() == 512);
        }
        if steps > MAX_SIZE - self.head {
            return Err(WireError::EndOfBuffer);
        }
        self.head = self.head + steps;
        Ok(())
    }

    fn seek(&mut self, offset: usize) -> (r: Result<(), WireError>) {
        proof {
            assert(old(self).bytes().len() == 512);
        }
        if offset > MAX_SIZE {
            return Err(WireError::EndOfBuffer);
        }
        self.head = offset;
        Ok(())
    }

    fn read(&mut self) -> (r: Result<u8, WireError>) {
        proof {
            assert(old(self).bytes().len() == 512);
        }
        if self.head >= MAX_SIZE {
            return Err(WireError::EndOfBuffer);
        }
        let data = self.buf[self.head];
        self.head = self.head + 1;
        Ok(data)
    }

    fn write(&mut self, data: u8) -> (r: Result<(), WireError>) {
        proof {
            assert(old(self).bytes().len() == 512);
        }
        if self.head >= MAX_SIZE {
            return Err(WireError::EndOfBuffer);
        }
        let ghost s0 = self.buf@;
        self.buf[self.head] = data;
        proof {
            assert(self.buf@ =~= splice(s0, self.head as int, seq![data]));
        }
        self.head = self.head + 1;
        Ok(())
    }

    fn get(&self, offset: usize) -> (r: Result<u8, WireError>) {
        proof {
            assert(self.bytes().len() == 512);
        }
        if offset >= MAX_SIZE {
            return Err(WireError::EndOfBuffer);
        }
        Ok(self.buf[offset])
    }

    fn get_range(&self, offset: usize, len: usize) -> (r: Result<&[u8], WireError>) {
        proof {
            assert(self.bytes().len() == 512);
        }
        if offset > MAX_SIZE || len > MAX_SIZE - offset {
            return Err(WireError::EndOfBuffer);
        }
        Ok(&self.buf[offset..offset + len])
    }

    fn set(&mut self, offset: usize, data: u8) -> (r: Result<(), WireError>) {
        proof {
            assert(old(self).bytes().len() == 512);
        }
        if offset >= MAX_SIZE {
            return Err(WireError::EndOfBuffer);
        }
        self.buf[offset] = data;
        Ok(())
    }
}

/// A buffer that grows as it is written, for TCP payloads.
pub struct ExtendingBuffer {
    pub buf: Vec<u8>,
    head: usize,
}

impl ExtendingBuffer {
    /// An empty buffer.
    pub fn new() -> (r: ExtendingBuffer)
        ensures
            r.bytes() == Seq::<u8>::empty(),
            r.cursor() == 0,
            r.wf(),
    {
        ExtendingBuffer { buf: Vec::with_capacity(MAX_SIZE), head: 0 }
    }

    /// A buffer holding `bytes`, with its cursor at the start.
    pub fn from_bytes(bytes: Vec<u8>) -> (r: ExtendingBuffer)
        ensures
            r.bytes() == bytes@,
            r.cursor() == 0,
            r.wf(),
    {
        let _ = bytes.len();
        ExtendingBuffer { buf: bytes, head: 0 }
    }
}

impl ByteBuffer for ExtendingBuffer {
    closed spec fn bytes(&self) -> Seq<u8> {
        self.buf@
    }

    closed spec fn cursor(&self) -> nat {
        self.head as nat
    }

    closed spec fn limit(&self) -> nat {
        usize::MAX as nat
    }

    closed spec fn wf(&self) -> bool {
        self.head <= self.buf@.len() <= usize::MAX
    }

    proof fn lemma_wf(&self) {
    }

    fn head(&self) -> (r: usize) {
        self.head
    }

    fn size(&self) -> (r: usize) {
        self.buf.len()
    }

    fn remaining(&self) -> (r: usize) {
        usize::MAX - self.head
    }

    fn step(&mut self, steps: usize) -> (r: Result<(), WireError>) {
        if steps > self.buf.len() - self.head {
            return Err(WireError::EndOfBuffer);
        }
        self.head = self.head + steps;
        Ok(())
    }

    fn seek(&mut self, offset: usize) -> (r: Result<(), WireError>) {
        if offset > self.buf.len() {
            return Err(WireError::EndOfBuffer);
        }
        self.head = offset;
        Ok(())
    }

    fn read(&mut self) -> (r: Result<u8, WireError>) {
        if self.head >= self.buf.len() {
            return Err(WireError::EndOfBuffer);
        }
        let data = self.buf[self.head];
        self.head = self.head + 1;
        Ok(data)
    }

    fn write(&mut self, data: u8) -> (r: Result<(), WireError>) {
        if self.head == usize::MAX {
            return Err(WireError::EndOfBuffer);
        }
        let ghost s0 = self.buf@;
        if self.head < self.buf.len() {
            self.buf.set(self.head, data);
        } else {
            self.buf.push(data);
        }
        proof {
            assert(self.buf@ =~= splice(s0, self.head as int, seq![data]));
        }
        self.head = self.head + 1;
        Ok(())
    }

    fn get(&self, offset: usize) -> (r: Result<u8, WireError>) {
        if offset >= self.buf.len() {
            return Err(WireError::EndOfBuffer);
        }
        Ok(self.buf[offset])
    }

    fn get_range(&self, offset: usize, len: usize) -> (r: Result<&[u8], WireError>) {
        if offset > self.buf.len() || len > self.buf.len() - offset {
            return Err(WireError::EndOfBuffer);
        }
        Ok(&self.buf.as_slice()[offset..offset + len])
    }

    fn set(&mut self, offset: usize, data: u8) -> (r: Result<(), WireError>) {
        if offset >= self.buf.len() {
            return Err(WireError::EndOfBuffer);
        }
        self.buf.set(offset, data);
        Ok(())
    }
}

} // verus!
