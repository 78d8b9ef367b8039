use vstd::prelude::*;

use crate::idx::{IMAGE_MAGIC, LABEL_MAGIC};
use crate::paths::{
    copy_range, is_ubyte_name, is_ubyte_name_exec, lemma_lex_total, lemma_lex_trans, lex_le,
    lex_leq,
};
use crate::{read_be32, spec_be32};

verus! {

broadcast use vstd::seq_lib::group_to_multiset_ensures;

/// One directory entry handed to the scan: the file's path and its first
/// stored bytes (at most four; fewer when the file is shorter than four bytes
/// or could not be read).
pub struct FileProbe {
    pub path: Vec<u8>,
    pub head: Vec<u8>,
}

/// Why a directory scan failed.
#[derive(Debug)]
pub enum ScanError {
    /// No candidate file sniffed as an image file.
    NoImagesFound,
    /// No candidate file sniffed as a label file.
    NoLabelsFound,
}

/// Reads the magic number from the first four stored bytes of a file, as the
/// scan's sniffer does: no decompression, and no value when fewer than four
/// bytes are available.
pub fn get_magic_number(head: &Vec<u8>) -> (r: Option<u32>)
    ensures
        head@.len() >= 4 ==> r == Some(spec_be32(head@, 0)),
        head@.len() < 4 ==> r is None,
{
    if head.len() >= 4 {
        Some(read_be32(head, 0))
    } else {
        None
    }
}

/// Whether a probe classifies under `magic`: its name ends in "ubyte" and its
/// stored bytes begin with that magic number.
pub open spec fn classifies_as(probe: FileProbe, magic: u32) -> bool {
    is_ubyte_name(probe.path@) && probe.head@.len() >= 4 && spec_be32(probe.head@, 0) == magic
}

/// The views of a sequence of path buffers.
pub open spec fn views_of(s: Seq<Vec<u8>>) -> Seq<Seq<u8>> {
    Seq::new(s.len(), |i: int| s[i]@)
}

/// The paths of the probes that classify under `magic`, in scan order.
pub open spec fn classified_paths(entries: Seq<FileProbe>, magic: u32) -> Seq<Seq<u8>>
    decreases entries.len(),
{
    if entries.len() == 0 {
        Seq::empty()
    } else {
        let rest = classified_paths(entries.drop_last(), magic);
        if classifies_as(entries.last(), magic) {
            rest.push(entries.last().path@)
        } else {
            rest
        }
    }
}

/// A path list sorted ascending in lexicographic order.
pub open spec fn paths_sorted(s: Seq<Seq<u8>>) -> bool {
    forall|i: int, j: int| 0 <= i < j < s.len() ==> lex_leq(#[trigger] s[i], #[trigger] s[j])
}

/// First position of `out` whose path does not sort at or before `x`; the
/// position where `x` belongs in an ascending list.
fn insert_pos(out: &Vec<Vec<u8>>, x: &Vec<u8>) -> (p: usize)
    ensures
        p <= out@.len(),
        forall|t: int| 0 <= t < p ==> lex_leq(#[trigger] out@[t]@, x@),
        p < out@.len() ==> !lex_leq(out@[p as int]@, x@),
{
    let mut p: usize = 0;
    while p < out.len()
        invariant
            p <= out@.len(),
            forall|t: int| 0 <= t < p ==> lex_leq(#[trigger] out@[t]@, x@),
        decreases out@.len() - p,
    {
        if !lex_le(&out[p], x) {
            return p;
        }
        p = p + 1;
    }
    p
}

/// Sorts a path list ascending in lexicographic order, keeping exactly the
/// same paths.
pub fn sort_paths(v: &mut Vec<Vec<u8>>)
    ensures
        paths_sorted(views_of(final(v)@)),
        views_of(final(v)@).to_multiset() == views_of(old(v)@).to_multiset(),
{
    let ghost orig = views_of(old(v)@);
    let mut out: Vec<Vec<u8>> = Vec::new();
    assert(views_of(out@) =~= Seq::<Seq<u8>>::empty());
    assert(views_of(out@).to_multiset().add(views_of(v@).to_multiset()) =~= orig.to_multiset());
    while v.len() > 0
        invariant
            paths_sorted(views_of(out@)),
            views_of(out@).to_multiset().add(views_of(v@).to_multiset()) == orig.to_multiset(),
        decreases v@.len(),
    {
        let ghost v_before = views_of(v@);
        let ghost out_before = views_of(out@);
        let x = match v.pop() {
            Some(y) => y,
            None => {
                proof {
                    assert(false);
                }
                Vec::new()
            },
        };
        proof {
            assert(views_of(v@) =~= v_before.remove(v_before.len() - 1));
            assert(v_before.contains(v_before.last()));
        }
        let p = insert_pos(&out, &x);
        out.insert(p, x);
        proof {
            assert(views_of(out@) =~= out_before.insert(p as int, x@));
            out_before.insert_ensures(p as int, x@);
            assert forall|i: int, j: int|
                0 <= i < j < views_of(out@).len() implies lex_leq(
                #[trigger] views_of(out@)[i],
                #[trigger] views_of(out@)[j],
            ) by {
                let nv = views_of(out@);
                if j < p {
                    assert(nv[i] == out_before[i] && nv[j] == out_before[j]);
                } else if j == p {
                    assert(nv[i] == out_before[i] && nv[j] == x@);
                    assert(lex_leq(out_before[i], x@));
                } else {
                    assert(nv[j] == out_before[j - 1]);
                    if i < p {
                        assert(nv[i] == out_before[i]);
                        assert(lex_leq(out_before[i], out_before[j - 1]));
                    } else if i == p {
                        assert(nv[i] == x@);
                        lemma_lex_total(out_before[p as int], x@);
                        if j - 1 > p {
                            lemma_lex_trans(x@, out_before[p as int], out_before[j - 1]);
                        }
                    } else {
                        assert(nv[i] == out_before[i - 1] && nv[j] == out_before[j - 1]);
                    }
                }
            }
            assert(views_of(out@).to_multiset().add(views_of(v@).to_multiset())
                =~= orig.to_multiset());
        }
    }
    proof {
        assert(views_of(v@) =~= Seq::<Seq<u8>>::empty());
        assert(views_of(out@).to_multiset().add(views_of(v@).to_multiset()) =~= views_of(
            out@,
        ).to_multiset());
    }
    *v = out;
}

/// Scans probed directory entries: keeps the files whose names end in
/// "ubyte", classifies each by the magic number in its stored head, and
/// returns the image paths and the label paths, each sorted ascending. An
/// entry that sniffs as neither kind, or whose head is too short to sniff, is
/// excluded silently. Fails when no entry classifies as an image file, or
/// none as a label file.
pub fn find_data_files(entries: &Vec<FileProbe>) -> (r: Result<
    (Vec<Vec<u8>>, Vec<Vec<u8>>),
    ScanError,
>)
    ensures
        r is Ok <==> ((exists|t: int|
            0 <= t < entries@.len() && classifies_as(#[trigger] entries@[t], IMAGE_MAGIC)) && (
        exists|t: int|
            0 <= t < entries@.len() && classifies_as(#[trigger] entries@[t], LABEL_MAGIC))),
        r matches Ok(pair) ==> pair.0@.len() > 0 && pair.1@.len() > 0,
        r matches Ok(pair) ==> paths_sorted(views_of(pair.0@)) && views_of(pair.0@).to_multiset()
            == classified_paths(entries@, IMAGE_MAGIC).to_multiset() && pair.0@.len()
            == classified_paths(entries@, IMAGE_MAGIC).len(),
        r matches Ok(pair) ==> paths_sorted(views_of(pair.1@)) && views_of(pair.1@).to_multiset()
            == classified_paths(entries@, LABEL_MAGIC).to_multiset() && pair.1@.len()
            == classified_paths(entries@, LABEL_MAGIC).len(),
        r matches Err(e) ==> ((e is NoImagesFound) <==> (forall|t: int|
            0 <= t < entries@.len() ==> !classifies_as(#[trigger] entries@[t], IMAGE_MAGIC))),
        r matches Err(e) ==> ((e is NoLabelsFound) <==> ((exists|t: int|
            0 <= t < entries@.len() && classifies_as(#[trigger] entries@[t], IMAGE_MAGIC)) && (
        forall|t: int|
            0 <= t < entries@.len() ==> !classifies_as(#[trigger] entries@[t], LABEL_MAGIC)))),
{
    let mut images: Vec<Vec<u8>> = Vec::new();
    let mut labels: Vec<Vec<u8>> = Vec::new();
    let mut i: usize = 0;
    assert(entries@.take(0) =~= Seq::<FileProbe>::empty());
    assert(views_of(images@) =~= classified_paths(entries@.take(0), IMAGE_MAGIC));
    assert(views_of(labels@) =~= classified_paths(entries@.take(0), LABEL_MAGIC));
    while i < entries.len()
        invariant
            i <= entries@.len(),
            views_of(images@) == classified_paths(entries@.take(i as int), IMAGE_MAGIC),
            views_of(labels@) == classified_paths(entries@.take(i as int), LABEL_MAGIC),
            images@.len() == 0 <==> (forall|t: int|
                0 <= t < i ==> !classifies_as(#[trigger] entries@[t], IMAGE_MAGIC)),
            labels@.len() == 0 <==> (forall|t: int|
                0 <= t < i ==> !classifies_as(#[trigger] entries@[t], LABEL_MAGIC)),
        decreases entries@.len() - i,
    {
        let e = &entries[i];
        let ghost images_before = views_of(images@);
        let ghost labels_before = views_of(labels@);
        if is_ubyte_name_exec(&e.path) {
            match get_magic_number(&e.head) {
                Some(m) => {
                    if m == IMAGE_MAGIC {
                        let plen = e.path.len();
                        images.push(copy_range(&e.path, 0, plen));
                    } else if m == LABEL_MAGIC {
                        let plen = e.path.len();
                        labels.push(copy_range(&e.path, 0, plen));
                    }
                },
                None => {},
            }
        }
        i = i + 1;
        proof {
            assert(entries@.take(i as int).drop_last() =~= entries@.take(i - 1));
            assert(entries@.take(i as int).last() == entries@[i - 1]);
            assert(e.path@.subrange(0, e.path@.len() as int) =~= e.path@);
            if classifies_as(entries@[i - 1], IMAGE_MAGIC) {
                assert(views_of(images@) =~= images_before.push(entries@[i - 1].path@));
            } else {
                assert(views_of(images@) =~= images_before);
            }
            if classifies_as(entries@[i - 1], LABEL_MAGIC) {
                assert(views_of(labels@) =~= labels_before.push(entries@[i - 1].path@));
            } else {
                assert(views_of(labels@) =~= labels_before);
            }
        }
    }
    proof {
        assert(entries@.take(i as int) =~= entries@);
    }
    if images.len() == 0 {
        return Err(ScanError::NoImagesFound);
    }
    if labels.len() == 0 {
        return Err(ScanError::NoLabelsFound);
    }
    sort_paths(&mut images);
    sort_paths(&mut labels);
    proof {
        let ci = classified_paths(entries@, IMAGE_MAGIC);
        let cl = classified_paths(entries@, LABEL_MAGIC);
        assert(views_of(images@).to_multiset() == ci.to_multiset());
        assert(views_of(labels@).to_multiset() == cl.to_multiset());
        assert(views_of(images@).len() == views_of(images@).to_multiset().len());
        assert(ci.len() == ci.to_multiset().len());
        assert(views_of(labels@).len() == views_of(labels@).to_multiset().len());
        assert(cl.len() == cl.to_multiset().len());
    }
    Ok((images, labels))
}

} // verus!
