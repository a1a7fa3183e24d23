//! The manifest codec.  A manifest is a line-oriented byte format, one line
//! per chunk, each of the form `blob <hash>`, in the exact order the chunks
//! appear in the original file.  Decoding trims trailing whitespace, splits
//! on newlines, and fails on the first line that lacks the fixed prefix.

use vstd::prelude::*;
use crate::bytes::{bytes_range, copy_bytes, is_hex, is_hex_char, is_prefix_of, starts_with, views_of};
use crate::error::RepoError;

verus! {

/// True for ASCII whitespace: space, tab, newline, carriage return.
pub open spec fn is_ws(c: u8) -> bool {
    c == 32 || c == 9 || c == 10 || c == 13
}

/// `b` with all trailing ASCII whitespace removed.
pub open spec fn trim_end_ws(b: Seq<u8>) -> Seq<u8>
    decreases b.len(),
{
    if b.len() > 0 && is_ws(b.last()) {
        trim_end_ws(b.drop_last())
    } else {
        b
    }
}

/// `b` split on newline characters, as `str::split` would: one more piece
/// than there are newlines, empty pieces kept.
pub open spec fn split_nl(b: Seq<u8>) -> Seq<Seq<u8>>
    decreases b.len(),
{
    if b.len() == 0 {
        seq![Seq::<u8>::empty()]
    } else {
        let r = split_nl(b.drop_last());
        if b.last() == 10 {
            r.push(Seq::empty())
        } else {
            r.update(r.len() - 1, r.last().push(b.last()))
        }
    }
}

pub proof fn lemma_split_nl_len(b: Seq<u8>)
    ensures
        split_nl(b).len() >= 1,
    decreases b.len(),
{
    if b.len() > 0 {
        lemma_split_nl_len(b.drop_last());
    }
}

/// The fixed line prefix `blob ` (as bytes).
pub open spec fn blob_tag() -> Seq<u8> {
    seq![98u8, 108u8, 111u8, 98u8, 32u8]
}

/// The encoding of an ordered list of chunk hashes: the concatenation of
/// `blob <hash>\n` for each hash in order.  An empty list encodes to an
/// empty byte sequence.
pub open spec fn encode_model(hs: Seq<Seq<u8>>) -> Seq<u8>
    decreases hs.len(),
{
    if hs.len() == 0 {
        Seq::empty()
    } else {
        encode_model(hs.drop_last()) + blob_tag() + hs.last() + seq![10u8]
    }
}

/// What decoding a payload yields: the ordered chunk hashes, or nothing
/// when some line lacks the `blob ` prefix.  An empty payload (after
/// trimming trailing whitespace) decodes to an empty list.
pub open spec fn decode_model(b: Seq<u8>) -> Option<Seq<Seq<u8>>> {
    let t = trim_end_ws(b);
    if t.len() == 0 {
        Some(Seq::empty())
    } else {
        let ls = split_nl(t);
        if forall|i: int| 0 <= i < ls.len() ==> is_prefix_of(blob_tag(), #[trigger] ls[i]) {
            Some(Seq::new(ls.len(), |i: int| ls[i].skip(5)))
        } else {
            None
        }
    }
}

proof fn lemma_split_append_no_nl(x: Seq<u8>, y: Seq<u8>)
    requires
        forall|i: int| 0 <= i < y.len() ==> y[i] != 10,
    ensures
        split_nl(x + y) == split_nl(x).update(
            split_nl(x).len() - 1,
            split_nl(x).last() + y,
        ),
    decreases y.len(),
{
    lemma_split_nl_len(x);
    let r = split_nl(x);
    if y.len() == 0 {
        assert(x + y =~= x);
        assert(r.last() + y =~= r.last());
        assert(r.update(r.len() - 1, r.last() + y) =~= r);
    } else {
        let y2 = y.drop_last();
        let c = y.last();
        lemma_split_append_no_nl(x, y2);
        assert((x + y).drop_last() =~= x + y2);
        let r2 = r.update(r.len() - 1, r.last() + y2);
        assert(split_nl(x + y) == r2.update(r2.len() - 1, r2.last().push(c)));
        assert(r2.last().push(c) =~= r.last() + y);
        assert(r2.update(r2.len() - 1, r.last() + y) =~= r.update(r.len() - 1, r.last() + y));
    }
}

proof fn lemma_split_push_nl(x: Seq<u8>)
    ensures
        split_nl(x.push(10)) == split_nl(x).push(Seq::<u8>::empty()),
{
    assert(x.push(10).drop_last() =~= x);
}

/// One line per hash: the trimmed encoding splits into exactly the lines
/// `blob <hash>`, in order.
proof fn lemma_encode_lines(hs: Seq<Seq<u8>>)
    requires
        hs.len() > 0,
        forall|i: int| 0 <= i < hs.len() ==> (#[trigger] hs[i]).len() > 0 && is_hex(hs[i]),
    ensures
        trim_end_ws(encode_model(hs)) == encode_model(hs.drop_last()) + blob_tag() + hs.last(),
        split_nl(encode_model(hs.drop_last()) + blob_tag() + hs.last()) == Seq::new(
            hs.len(),
            |i: int| blob_tag() + hs[i],
        ),
    decreases hs.len(),
{
    let h = hs.last();
    let w = blob_tag() + h;
    let e2 = encode_model(hs.drop_last());
    let t = e2 + w;
    assert(encode_model(hs) =~= t.push(10));
    assert(t.push(10).drop_last() =~= t);
    assert(is_hex_char(h[h.len() - 1]));
    assert(t.last() == h.last());
    assert(!is_ws(t.last()));
    assert(trim_end_ws(t.push(10)) == trim_end_ws(t));
    assert(trim_end_ws(t) == t);
    assert forall|i: int| 0 <= i < w.len() implies w[i] != 10 by {
        if i >= 5 {
            assert(is_hex_char(h[i - 5]));
        }
    }
    if hs.len() == 1 {
        assert(e2 == Seq::<u8>::empty());
        lemma_split_append_no_nl(Seq::empty(), w);
        assert(Seq::<u8>::empty() + w =~= w);
        assert(e2 + w =~= w);
        assert(split_nl(Seq::<u8>::empty()) == seq![Seq::<u8>::empty()]);
        assert(split_nl(t) =~= Seq::new(hs.len(), |i: int| blob_tag() + hs[i]));
    } else {
        let hs2 = hs.drop_last();
        lemma_encode_lines(hs2);
        let t2 = encode_model(hs2.drop_last()) + blob_tag() + hs2.last();
        assert(e2 =~= t2.push(10));
        lemma_split_push_nl(t2);
        let l2 = Seq::new(hs2.len(), |i: int| blob_tag() + hs2[i]);
        assert(split_nl(e2) == l2.push(Seq::<u8>::empty()));
        lemma_split_append_no_nl(e2, w);
        assert(Seq::<u8>::empty() + w =~= w);
        assert forall|i: int| 0 <= i < hs.len() implies split_nl(t)[i] == blob_tag() + hs[i] by {
            if i < hs.len() - 1 {
                assert(split_nl(t)[i] == l2[i]);
                assert(hs2[i] == hs[i]);
            }
        }
        assert(split_nl(t) =~= Seq::new(hs.len(), |i: int| blob_tag() + hs[i]));
    }
}

/// Decoding inverts encoding: a manifest built from non-empty hex hashes
/// decodes to exactly those hashes, in order.
pub proof fn lemma_manifest_round_trip(hs: Seq<Seq<u8>>)
    requires
        forall|i: int| 0 <= i < hs.len() ==> (#[trigger] hs[i]).len() > 0 && is_hex(hs[i]),
    ensures
        decode_model(encode_model(hs)) == Some(hs),
{
    if hs.len() == 0 {
        assert(trim_end_ws(encode_model(hs)).len() == 0);
        assert(Seq::<Seq<u8>>::empty() =~= hs);
    } else {
        lemma_encode_lines(hs);
        let t = trim_end_ws(encode_model(hs));
        let ls = split_nl(t);
        assert(ls == Seq::new(hs.len(), |i: int| blob_tag() + hs[i]));
        assert(t.len() >= blob_tag().len() + hs.last().len());
        assert forall|i: int| 0 <= i < ls.len() implies is_prefix_of(
            blob_tag(),
            #[trigger] ls[i],
        ) by {
            assert(ls[i] == blob_tag() + hs[i]);
            assert((blob_tag() + hs[i]).take(5) =~= blob_tag());
        }
        assert forall|i: int| 0 <= i < ls.len() implies ls[i].skip(5) == hs[i] by {
            assert((blob_tag() + hs[i]).skip(5) =~= hs[i]);
        }
        assert(Seq::new(ls.len(), |i: int| ls[i].skip(5)) =~= hs);
    }
}

fn is_ws_byte(c: u8) -> (r: bool)
    ensures
        r == is_ws(c),
{
    c == 32 || c == 9 || c == 10 || c == 13
}

fn make_tag() -> (r: Vec<u8>)
    ensures
        r@ == blob_tag(),
{
    let mut r: Vec<u8> = Vec::new();
    r.push(98);
    r.push(108);
    r.push(111);
    r.push(98);
    r.push(32);
    proof {
        assert(r@ =~= blob_tag());
    }
    r
}

/// Encode an ordered list of chunk hashes as manifest bytes.
pub fn encode_manifest(hashes: &Vec<Vec<u8>>) -> (r: Vec<u8>)
    ensures
        r@ == encode_model(views_of(hashes@)),
{
    let tag = make_tag();
    let mut out: Vec<u8> = Vec::new();
    let mut i: usize = 0;
    while i < hashes.len()
        invariant
            i <= hashes@.len(),
            tag@ == blob_tag(),
            out@ == encode_model(views_of(hashes@).take(i as int)),
        decreases hashes@.len() - i,
    {
        let mut t = copy_bytes(tag.as_slice());
        out.append(&mut t);
        let mut h = copy_bytes(hashes[i].as_slice());
        out.append(&mut h);
        out.push(10);
        proof {
            let hv = views_of(hashes@);
            let pre = hv.take(i + 1 as int);
            assert(pre.drop_last() =~= hv.take(i as int));
            assert(pre.last() == hashes@[i as int]@);
            assert(out@ =~= encode_model(pre));
        }
        i = i + 1;
    }
    proof {
        assert(views_of(hashes@).take(hashes@.len() as int) =~= views_of(hashes@));
    }
    out
}

/// Decode manifest bytes into the ordered list of chunk hashes it carries.
pub fn decode_manifest(b: &[u8]) -> (r: Result<Vec<Vec<u8>>, RepoError>)
    ensures
        match r {
            Ok(hs) => decode_model(b@) == Some(views_of(hs@)),
            Err(e) => e == RepoError::MalformedManifest && decode_model(b@) is None,
        },
{
    // Trim trailing whitespace.
    let mut end: usize = b.len();
    proof {
        assert(b@.take(b@.len() as int) =~= b@);
    }
    while end > 0 && is_ws_byte(b[end - 1])
        invariant
            end <= b@.len(),
            trim_end_ws(b@.take(end as int)) == trim_end_ws(b@),
        decreases end,
    {
        proof {
            assert(b@.take(end as int).drop_last() =~= b@.take(end - 1 as int));
        }
        end = end - 1;
    }
    proof {
        assert(trim_end_ws(b@) == b@.take(end as int));
    }
    if end == 0 {
        let hs: Vec<Vec<u8>> = Vec::new();
        proof {
            assert(views_of(hs@) =~= Seq::<Seq<u8>>::empty());
        }
        return Ok(hs);
    }
    // Split the trimmed payload on newlines.
    let mut lines: Vec<Vec<u8>> = Vec::new();
    let mut cur: Vec<u8> = Vec::new();
    let mut i: usize = 0;
    proof {
        assert(views_of(lines@).push(cur@) =~= split_nl(b@.take(0)));
    }
    while i < end
        invariant
            i <= end <= b@.len(),
            views_of(lines@).push(cur@) == split_nl(b@.take(i as int)),
        decreases end - i,
    {
        let c = b[i];
        proof {
            let t = b@.take(i + 1 as int);
            assert(t.drop_last() =~= b@.take(i as int));
            assert(t.last() == b@[i as int]);
            lemma_split_nl_len(b@.take(i as int));
        }
        if c == 10 {
            lines.push(cur);
            cur = Vec::new();
            proof {
                assert(views_of(lines@).push(cur@) =~= split_nl(b@.take(i + 1 as int)));
            }
        } else {
            let ghost old_split = split_nl(b@.take(i as int));
            cur.push(c);
            proof {
                assert(views_of(lines@).push(cur@) =~= old_split.update(
                    old_split.len() - 1,
                    old_split.last().push(b@[i as int]),
                ));
            }
        }
        i = i + 1;
    }
    lines.push(cur);
    proof {
        assert(views_of(lines@) =~= split_nl(b@.take(end as int)));
    }
    // Check each line for the fixed prefix and take the rest as a hash.
    let tag = make_tag();
    let mut out: Vec<Vec<u8>> = Vec::new();
    let ghost ls = split_nl(b@.take(end as int));
    let mut j: usize = 0;
    while j < lines.len()
        invariant
            j <= lines@.len(),
            0 < end <= b@.len(),
            trim_end_ws(b@) == b@.take(end as int),
            ls == split_nl(b@.take(end as int)),
            tag@ == blob_tag(),
            views_of(lines@) == ls,
            forall|k: int| 0 <= k < j ==> is_prefix_of(blob_tag(), #[trigger] ls[k]),
            views_of(out@) == Seq::new(j as nat, |k: int| ls[k].skip(5)),
        decreases lines@.len() - j,
    {
        let line = &lines[j];
        proof {
            assert(ls[j as int] == lines@[j as int]@);
        }
        if !starts_with(line.as_slice(), tag.as_slice()) {
            proof {
                assert(!is_prefix_of(blob_tag(), ls[j as int]));
                assert(decode_model(b@) is None);
            }
            return Err(RepoError::MalformedManifest);
        }
        let h = bytes_range(line.as_slice(), 5, line.len());
        proof {
            assert(h@ =~= ls[j as int].skip(5));
        }
        let ghost pre = out@;
        let ghost hv = h@;
        out.push(h);
        proof {
            assert(views_of(pre).len() == pre.len());
            assert(pre.len() == j);
            assert(out@.len() == j + 1);
            assert(out@[j as int]@ == hv);
            assert forall|k: int| 0 <= k < j + 1 implies views_of(out@)[k] == ls[k].skip(5) by {
                assert(views_of(out@)[k] == out@[k]@);
                if k < j {
                    assert(out@[k] == pre[k]);
                    assert(views_of(pre)[k] == pre[k]@);
                }
            }
            assert(views_of(out@) =~= Seq::new((j + 1) as nat, |k: int| ls[k].skip(5)));
        }
        j = j + 1;
    }
    proof {
        assert(views_of(out@) =~= Seq::new(ls.len(), |k: int| ls[k].skip(5)));
        assert(trim_end_ws(b@).len() > 0);
    }
    Ok(out)
}

} // verus!
