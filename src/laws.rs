//! Laws of the wire codec: names read back as written, lower-cased; pointer
//! following is bounded.
use crate::name::{
    join_label, labels, labels_fit, labels_wire, lemma_labels_len, lower_byte, lower_bytes,
    name_walk, name_wire, read_name, WireError, DOT, MAX_JUMPS, MAX_LABEL_LEN,
};
use vstd::prelude::*;

verus! {

/// The labels, lower-cased and joined by dots, as a reader builds them.
pub open spec fn joined(ls: Seq<Seq<u8>>) -> Seq<u8>
    decreases ls.len(),
{
    if ls.len() == 0 {
        Seq::<u8>::empty()
    } else {
        join_label(joined(ls.drop_last()), lower_bytes(ls.last()))
    }
}

/// Every label but possibly the last holds at least one byte.
pub open spec fn inner_labels_nonempty(n: Seq<u8>) -> bool {
    forall|i: int| 0 <= i < labels(n).len() - 1 ==> (#[trigger] labels(n)[i]).len() > 0
}

/// A name's wire form read back gives the name lower-cased, where no label
/// but the last is empty.
pub proof fn lemma_joined_labels(n: Seq<u8>)
    requires
        inner_labels_nonempty(n),
    ensures
        joined(labels(n)) == lower_bytes(n),
    decreases n.len(),
{
    lemma_labels_len(n);
    if n.len() == 0 {
        let ls = labels(n);
        assert(ls == seq![Seq::<u8>::empty()]);
        assert(ls.drop_last() =~= Seq::<Seq<u8>>::empty());
        assert(joined(ls.drop_last()) == Seq::<u8>::empty());
        assert(lower_bytes(ls.last()) =~= Seq::<u8>::empty());
        assert(joined(ls) =~= lower_bytes(n));
    } else {
        let m = n.drop_last();
        let b = n.last();
        lemma_labels_len(m);
        let lm = labels(m);
        assert(n =~= m.push(b));
        if b == DOT {
            assert(labels(n) == lm.push(Seq::<u8>::empty()));
            assert forall|i: int| 0 <= i < lm.len() - 1 implies (#[trigger] lm[i]).len() > 0 by {
                assert(labels(n)[i] == lm[i]);
            }
            lemma_joined_labels(m);
            assert(labels(n).drop_last() =~= lm);
            assert(lm[lm.len() - 1] == labels(n)[lm.len() - 1]);
            assert(lm.last().len() > 0);
            lemma_last_label_in(m);
            assert(m.len() > 0);
            assert(lower_bytes(Seq::<u8>::empty()) =~= Seq::<u8>::empty());
            assert(lower_bytes(n) =~= lower_bytes(m) + seq![DOT] + Seq::<u8>::empty());
        } else {
            let last = lm.last();
            assert(labels(n) == lm.update(lm.len() - 1, last.push(b)));
            assert forall|i: int| 0 <= i < lm.len() - 1 implies (#[trigger] lm[i]).len() > 0 by {
                assert(labels(n)[i] == lm[i]);
            }
            lemma_joined_labels(m);
            assert(labels(n).drop_last() =~= lm.drop_last());
            assert(lower_bytes(last.push(b)) =~= lower_bytes(last).push(lower_byte(b)));
            let a = joined(lm.drop_last());
            assert(join_label(a, lower_bytes(last).push(lower_byte(b))) =~= join_label(
                a,
                lower_bytes(last),
            ).push(lower_byte(b)));
            assert(lower_bytes(n) =~= lower_bytes(m).push(lower_byte(b)));
        }
    }
}

/// A nonempty last label means a nonempty name.
proof fn lemma_last_label_in(n: Seq<u8>)
    requires
        labels(n).last().len() > 0,
    ensures
        n.len() > 0,
{
    lemma_labels_len(n);
    if n.len() == 0 {
        assert(labels(n) =~= seq![Seq::<u8>::empty()]);
    }
}

/// The wire form of labels, taken from the front.
pub proof fn lemma_labels_wire_front(ls: Seq<Seq<u8>>)
    requires
        ls.len() > 0,
    ensures
        labels_wire(ls) == seq![ls[0].len() as u8] + ls[0] + labels_wire(ls.drop_first()),
    decreases ls.len(),
{
    if ls.len() == 1 {
        assert(ls.drop_last() =~= Seq::<Seq<u8>>::empty());
        assert(ls.drop_first() =~= Seq::<Seq<u8>>::empty());
        assert(labels_wire(ls) =~= seq![ls[0].len() as u8] + ls[0] + Seq::<u8>::empty());
    } else {
        lemma_labels_wire_front(ls.drop_last());
        assert(ls.drop_last().drop_first() =~= ls.drop_first().drop_last());
        assert(ls.drop_first().last() == ls.last());
        assert(ls.drop_last()[0] == ls[0]);
    }
}

/// Reading labels of 1 to 63 bytes, then a zero byte, adds them to the name
/// read so far and ends past the zero byte.
pub proof fn lemma_walk_labels(
    data: Seq<u8>,
    p: int,
    hops: nat,
    pre: Seq<Seq<u8>>,
    ls: Seq<Seq<u8>>,
)
    requires
        0 <= p,
        p + labels_wire(ls).len() + 1 <= data.len(),
        data.subrange(p, p + labels_wire(ls).len() + 1) == labels_wire(ls) + seq![0u8],
        forall|i: int| 0 <= i < ls.len() ==> 0 < (#[trigger] ls[i]).len() <= MAX_LABEL_LEN,
    ensures
        name_walk(data, p, hops, joined(pre), None) == Ok::<(Seq<u8>, int), WireError>(
            (joined(pre + ls), p + labels_wire(ls).len() + 1),
        ),
    decreases ls.len(),
{
    if ls.len() == 0 {
        assert(pre + ls =~= pre);
        assert(data[p] == (labels_wire(ls) + seq![0u8])[0]);
    } else {
        lemma_labels_wire_front(ls);
        let l = ls[0];
        let rest = ls.drop_first();
        let w = labels_wire(ls) + seq![0u8];
        assert(data[p] == w[0]);
        assert(w[0] == l.len() as u8);
        assert(data.subrange(p + 1, p + 1 + l.len()) =~= l) by {
            assert forall|i: int| 0 <= i < l.len() implies data[p + 1 + i] == l[i] by {
                assert(data[p + 1 + i] == w[1 + i]);
            }
        }
        let q = p + 1 + l.len();
        assert(data.subrange(q, q + labels_wire(rest).len() + 1) =~= labels_wire(rest) + seq![0u8])
            by {
            assert forall|i: int| 0 <= i < labels_wire(rest).len() + 1 implies data[q + i] == (
            labels_wire(rest) + seq![0u8])[i] by {
                assert(data[q + i] == w[1 + l.len() + i]);
            }
        }
        assert forall|i: int| 0 <= i < rest.len() implies 0 < (#[trigger] rest[i]).len()
            <= MAX_LABEL_LEN by {
            assert(rest[i] == ls[i + 1]);
        }
        assert(pre.push(l).drop_last() =~= pre);
        assert(joined(pre.push(l)) == join_label(joined(pre), lower_bytes(l)));
        lemma_walk_labels(data, q, hops, pre.push(l), rest);
        assert(pre.push(l) + rest =~= pre + ls);
    }
}

/// A name whose labels hold 1 to 63 bytes each.
pub open spec fn name_ok(n: Seq<u8>) -> bool {
    labels_fit(n) && forall|i: int| 0 <= i < labels(n).len() ==> (#[trigger] labels(n)[i]).len() > 0
}

/// A name written and read back gives the name lower-cased, whatever bytes
/// surround it.
pub proof fn lemma_name_round_trip(data: Seq<u8>, p: int, n: Seq<u8>)
    requires
        name_ok(n),
        0 <= p,
        p + name_wire(n).len() <= data.len(),
        data.subrange(p, p + name_wire(n).len()) == name_wire(n),
    ensures
        read_name(data, p) == Ok::<(Seq<u8>, int), WireError>(
            (lower_bytes(n), p + name_wire(n).len()),
        ),
{
    let ls = labels(n);
    assert forall|i: int| 0 <= i < ls.len() implies 0 < (#[trigger] ls[i]).len()
        <= MAX_LABEL_LEN by {
        assert(labels(n)[i].len() > 0);
        assert(labels(n)[i].len() <= MAX_LABEL_LEN);
    }
    lemma_walk_labels(data, p, MAX_JUMPS as nat, Seq::empty(), ls);
    assert(Seq::<Seq<u8>>::empty() + ls =~= ls);
    assert(joined(Seq::<Seq<u8>>::empty()) =~= Seq::<u8>::empty());
    lemma_joined_labels(n);
}

/// Lower-casing keeps dots and lengths, so it keeps the labels' lengths.
pub proof fn lemma_lower_labels(n: Seq<u8>)
    ensures
        labels(lower_bytes(n)).len() == labels(n).len(),
        forall|i: int|
            0 <= i < labels(n).len() ==> (#[trigger] labels(lower_bytes(n))[i]).len() == labels(
                n,
            )[i].len(),
    decreases n.len(),
{
    lemma_labels_len(n);
    if n.len() > 0 {
        let m = n.drop_last();
        lemma_lower_labels(m);
        assert(lower_bytes(n).drop_last() =~= lower_bytes(m));
        assert(lower_bytes(n).last() == lower_byte(n.last()));
        lemma_labels_len(m);
        lemma_labels_len(lower_bytes(m));
    }
}

/// Lower-casing twice is lower-casing once.
pub proof fn lemma_lower_idempotent(n: Seq<u8>)
    ensures
        lower_bytes(lower_bytes(n)) == lower_bytes(n),
{
    assert(lower_bytes(lower_bytes(n)) =~= lower_bytes(n));
}

/// Name decoding is idempotent under lower-casing: a lower-cased name whose
/// labels hold 1 to 63 bytes, written and read back, is that same name.
pub proof fn law_lower_name_round_trip(n: Seq<u8>)
    requires
        name_ok(n),
    ensures
        read_name(name_wire(lower_bytes(n)), 0) == Ok::<(Seq<u8>, int), WireError>(
            (lower_bytes(n), name_wire(lower_bytes(n)).len() as int),
        ),
{
    let l = lower_bytes(n);
    lemma_lower_labels(n);
    assert(name_ok(l)) by {
        assert forall|i: int| 0 <= i < labels(l).len() implies (#[trigger] labels(l)[i]).len()
            <= MAX_LABEL_LEN && labels(l)[i].len() > 0 by {
            assert(labels(l)[i].len() == labels(n)[i].len());
        }
    }
    assert(name_wire(l).subrange(0, name_wire(l).len() as int) =~= name_wire(l));
    lemma_name_round_trip(name_wire(l), 0, l);
    lemma_lower_idempotent(n);
}

/// The bound on pointer follows only ever turns a walk into a
/// `TooManyJumps` error: with `k` follows allowed the walk ends as it would
/// with any larger allowance `h`, or fails with that error.
pub proof fn lemma_walk_fuel(
    data: Seq<u8>,
    p: int,
    k: nat,
    h: nat,
    acc: Seq<u8>,
    resume: Option<int>,
)
    requires
        k <= h,
    ensures
        name_walk(data, p, k, acc, resume) == Err::<(Seq<u8>, int), WireError>(
            WireError::TooManyJumps,
        ) || name_walk(data, p, k, acc, resume) == name_walk(data, p, h, acc, resume),
    decreases k, data.len() - p,
{
    if p < 0 || p >= data.len() {
    } else if data[p] >= 0xC0 {
        if p + 1 >= data.len() || k == 0 {
        } else {
            lemma_walk_fuel(
                data,
                crate::name::pointer_target(data[p], data[p + 1]),
                (k - 1) as nat,
                (h - 1) as nat,
                acc,
                if resume is None { Some(p + 2) } else { resume },
            );
        }
    } else if data[p] == 0 {
    } else if p + 1 + data[p] > data.len() {
    } else {
        lemma_walk_fuel(
            data,
            p + 1 + data[p],
            k,
            h,
            join_label(acc, lower_bytes(data.subrange(p + 1, p + 1 + data[p]))),
            resume,
        );
    }
}

/// Pointer following ends within 255 follows or fails with `TooManyJumps`:
/// a name read either fails with that error or reads as it would with any
/// larger bound on follows.
pub proof fn law_pointer_bound(data: Seq<u8>, p: int, h: nat)
    requires
        h >= MAX_JUMPS,
    ensures
        read_name(data, p) == Err::<(Seq<u8>, int), WireError>(WireError::TooManyJumps)
            || read_name(data, p) == name_walk(data, p, h, Seq::empty(), None),
{
    lemma_walk_fuel(data, p, MAX_JUMPS as nat, h, Seq::empty(), None);
}

} // verus!
