//! The wire form of domain names: labels, the encoding written, and the walk
//! that reads a name back, following compression pointers.
use vstd::prelude::*;
use vstd::utf8::{decode_utf8, valid_utf8};

verus! {

/// The byte `.` that separates labels.
pub const DOT: u8 = 46;

/// The longest label the wire format allows.
pub const MAX_LABEL_LEN: usize = 63;

/// How many compression pointers a name may follow before it is refused.
pub const MAX_JUMPS: u32 = 255;

/// Why reading or writing wire data failed.
#[derive(Clone, Copy, Debug, PartialEq, Eq, Structural)]
pub enum WireError {
    /// A read, write or move went past the end of the buffer.
    EndOfBuffer,
    /// A label of a name to be written is longer than 63 bytes.
    LabelTooLong,
    /// A name followed more than 255 compression pointers.
    TooManyJumps,
    /// A section holds more entries than a 16-bit count can carry.
    TooManyEntries,
}

/// The labels of a dotted name, split at every dot (`""` has one empty label).
pub open spec fn labels(n: Seq<u8>) -> Seq<Seq<u8>>
    decreases n.len(),
{
    if n.len() == 0 {
        seq![Seq::<u8>::empty()]
    } else {
        let prev = labels(n.drop_last());
        if n.last() == DOT {
            prev.push(Seq::<u8>::empty())
        } else {
            prev.update(prev.len() - 1, prev.last().push(n.last()))
        }
    }
}

/// Each label, prefixed by its length.
pub open spec fn labels_wire(ls: Seq<Seq<u8>>) -> Seq<u8>
    decreases ls.len(),
{
    if ls.len() == 0 {
        Seq::<u8>::empty()
    } else {
        labels_wire(ls.drop_last()) + seq![ls.last().len() as u8] + ls.last()
    }
}

/// The uncompressed wire form of a dotted name: its labels, then a zero byte.
pub open spec fn name_wire(n: Seq<u8>) -> Seq<u8> {
    labels_wire(labels(n)) + seq![0u8]
}

/// No label of the name is longer than 63 bytes.
pub open spec fn labels_fit(n: Seq<u8>) -> bool {
    forall|i: int| 0 <= i < labels(n).len() ==> (#[trigger] labels(n)[i]).len() <= MAX_LABEL_LEN
}

/// ASCII upper case letters become lower case; other bytes stay.
pub open spec fn lower_byte(b: u8) -> u8 {
    if 65 <= b <= 90 {
        (b + 32) as u8
    } else {
        b
    }
}

pub open spec fn lower_bytes(s: Seq<u8>) -> Seq<u8> {
    s.map_values(|b: u8| lower_byte(b))
}

/// Appends a label to a dotted name under construction.
pub open spec fn join_label(acc: Seq<u8>, label: Seq<u8>) -> Seq<u8> {
    if acc.len() == 0 {
        label
    } else {
        acc + seq![DOT] + label
    }
}

/// The offset a compression pointer `hi lo` designates (`hi >= 0xC0`).
pub open spec fn pointer_target(hi: u8, lo: u8) -> int {
    (hi - 0xC0) * 256 + lo
}

pub open spec fn opt_int(o: Option<usize>) -> Option<int> {
    match o {
        Some(v) => Some(v as int),
        None => None,
    }
}

/// Reads a name at offset `p` of `data`, with `hops` pointer follows left, `acc`
/// the name read so far and `resume` the cursor to restore if a pointer was
/// followed. Gives the dotted name, lower-cased, and where the cursor ends.
pub open spec fn name_walk(
    data: Seq<u8>,
    p: int,
    hops: nat,
    acc: Seq<u8>,
    resume: Option<int>,
) -> Result<(Seq<u8>, int), WireError>
    decreases hops, data.len() - p,
{
    if p < 0 || p >= data.len() {
        Err(WireError::EndOfBuffer)
    } else if data[p] >= 0xC0 {
        if p + 1 >= data.len() {
            Err(WireError::EndOfBuffer)
        } else if hops == 0 {
            Err(WireError::TooManyJumps)
        } else {
            name_walk(
                data,
                pointer_target(data[p], data[p + 1]),
                (hops - 1) as nat,
                acc,
                if resume is None { Some(p + 2) } else { resume },
            )
        }
    } else if data[p] == 0 {
        Ok((acc, if let Some(r) = resume { r } else { p + 1 }))
    } else if p + 1 + data[p] > data.len() {
        Err(WireError::EndOfBuffer)
    } else {
        name_walk(
            data,
            p + 1 + data[p],
            hops,
            join_label(acc, lower_bytes(data.subrange(p + 1, p + 1 + data[p]))),
            resume,
        )
    }
}

/// The name at offset `p` of `data` and the cursor after it.
pub open spec fn read_name(data: Seq<u8>, p: int) -> Result<(Seq<u8>, int), WireError> {
    name_walk(data, p, MAX_JUMPS as nat, Seq::<u8>::empty(), None)
}

/// What `String::from_utf8_lossy` makes of bytes that are not valid UTF-8.
pub uninterp spec fn lossy_text(b: Seq<u8>) -> Seq<char>;

/// The text of name bytes: their UTF-8 decoding when valid.
pub open spec fn text_of(b: Seq<u8>) -> Seq<char> {
    if valid_utf8(b) {
        decode_utf8(b)
    } else {
        lossy_text(b)
    }
}

/// Relies on `String::from_utf8_lossy`: valid UTF-8 is decoded as it stands,
/// invalid sequences are replaced.
#[verifier::external_body]
pub(crate) fn utf8_lossy(b: &[u8]) -> (r: String)
    ensures
        valid_utf8(b@) ==> r@ == decode_utf8(b@),
        !valid_utf8(b@) ==> r@ == lossy_text(b@),
{
    String::from_utf8_lossy(b).into_owned()
}

/// Whether no label of the dotted name `n` is longer than 63 bytes.
pub fn check_labels(n: &[u8]) -> (r: bool)
    ensures
        r == labels_fit(n@),
{
    let ghost nb = n@;
    let mut i: usize = 0;
    let mut cur: usize = 0;
    while i < n.len()
        invariant
            i <= nb.len(),
            n@ == nb,
            cur == labels(nb.take(i as int)).last().len(),
            cur <= i,
            forall|k: int|
                0 <= k < labels(nb.take(i as int)).len() - 1 ==> (#[trigger] labels(
                    nb.take(i as int),
                )[k]).len() <= MAX_LABEL_LEN,
        decreases nb.len() - i,
    {
        proof {
            lemma_labels_len(nb.take(i as int));
            lemma_labels_step(nb, i as int);
        }
        if n[i] == DOT {
            if cur > MAX_LABEL_LEN {
                proof {
                    let k = labels(nb.take(i as int)).len() - 1;
                    lemma_labels_prefix_too_long(nb, i + 1, k);
                    assert(labels(nb)[k].len() > MAX_LABEL_LEN);
                }
                return false;
            }
            cur = 0;
        } else {
            cur = cur + 1;
        }
        i = i + 1;
    }
    proof {
        assert(nb.take(nb.len() as int) =~= nb);
        lemma_labels_len(nb);
    }
    cur <= MAX_LABEL_LEN
}

// Lemmas on labels.

pub proof fn lemma_labels_len(n: Seq<u8>)
    ensures
        labels(n).len() >= 1,
    decreases n.len(),
{
    if n.len() > 0 {
        lemma_labels_len(n.drop_last());
    }
}

/// One byte more: a dot opens a new label, another byte extends the last one.
pub proof fn lemma_labels_step(n: Seq<u8>, i: int)
    requires
        0 <= i < n.len(),
    ensures
        labels(n.take(i + 1)) == (if n[i] == DOT {
            labels(n.take(i)).push(Seq::<u8>::empty())
        } else {
            labels(n.take(i)).update(
                labels(n.take(i)).len() - 1,
                labels(n.take(i)).last().push(n[i]),
            )
        }),
{
    assert(n.take(i + 1).drop_last() =~= n.take(i));
    assert(n.take(i + 1).last() == n[i]);
}

pub proof fn lemma_labels_wire_push(ls: Seq<Seq<u8>>, l: Seq<u8>)
    ensures
        labels_wire(ls.push(l)) == labels_wire(ls) + seq![l.len() as u8] + l,
{
    assert(ls.push(l).drop_last() =~= ls);
}

/// A label of a prefix that ends before the prefix does is a label of the name.
pub proof fn lemma_labels_prefix_too_long(n: Seq<u8>, i: int, k: int)
    requires
        0 < i <= n.len(),
        n[i - 1] == DOT,
        0 <= k < labels(n.take(i)).len() - 1,
    ensures
        labels(n.take(i))[k] == labels(n)[k],
        k < labels(n).len(),
    decreases n.len() - i,
{
    lemma_labels_len(n.take(i));
    if i < n.len() {
        lemma_labels_step(n, i);
        lemma_labels_len(n.take(i + 1));
        lemma_labels_len(n.take(i));
        if n[i] == DOT {
            lemma_labels_prefix_too_long(n, i + 1, k);
        } else {
            lemma_labels_prefix_keep(n, i + 1, k);
        }
    } else {
        assert(n.take(i) =~= n);
    }
}

/// Labels that a prefix has closed stay labels of every longer prefix.
pub proof fn lemma_labels_prefix_keep(n: Seq<u8>, i: int, k: int)
    requires
        0 < i <= n.len(),
        0 <= k < labels(n.take(i)).len() - 1,
    ensures
        labels(n.take(i))[k] == labels(n)[k],
        k < labels(n).len() - 1,
    decreases n.len() - i,
{
    lemma_labels_len(n.take(i));
    if i < n.len() {
        lemma_labels_step(n, i);
        lemma_labels_len(n.take(i + 1));
        lemma_labels_prefix_keep(n, i + 1, k);
    } else {
        assert(n.take(i) =~= n);
    }
}

/// The label being read at a dot, or at the end, is a label of the name.
pub proof fn lemma_label_of_prefix_fits(n: Seq<u8>, i: int)
    requires
        0 <= i <= n.len(),
        i == n.len() || n[i] == DOT,
        labels_fit(n),
    ensures
        labels(n.take(i)).last().len() <= MAX_LABEL_LEN,
{
    lemma_labels_len(n.take(i));
    let k = labels(n.take(i)).len() - 1;
    if i == n.len() {
        assert(n.take(i) =~= n);
        assert(labels(n)[k].len() <= MAX_LABEL_LEN);
    } else {
        lemma_labels_step(n, i);
        lemma_labels_len(n.take(i + 1));
        assert(labels(n.take(i + 1))[k] == labels(n.take(i)).last());
        lemma_labels_prefix_keep(n, i + 1, k);
        assert(labels(n)[k].len() <= MAX_LABEL_LEN);
    }
}


} // verus!
