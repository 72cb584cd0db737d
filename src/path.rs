use vstd::prelude::*;
use crate::order::utf8;

verus! {

/// The relative-directory marker that display paths lose.
pub open spec fn relative_marker() -> Seq<char> {
    seq!['.', '/']
}

/// A path as displayed: a single leading `./` removed, anything else kept.
pub open spec fn normalized(path: Seq<char>) -> Seq<char> {
    if path.len() >= 2 && path.subrange(0, 2) == relative_marker() {
        path.subrange(2, path.len() as int)
    } else {
        path
    }
}

/// Relies on `str::strip_prefix`: `Some` of the rest exactly when the text
/// starts with the prefix.
#[verifier::external_body]
fn strip_prefix_of<'a>(s: &'a str, prefix: &str) -> (r: Option<&'a str>)
    ensures
        r is Some <==> (prefix@.len() <= s@.len() && s@.subrange(0, prefix@.len() as int)
            == prefix@),
        r matches Some(rest) ==> rest@ == s@.subrange(prefix@.len() as int, s@.len() as int),
{
    s.strip_prefix(prefix)
}

/// Strips one leading `./` from a path for display.
pub fn strip_relative_parts(path: &str) -> (r: &str)
    ensures
        r@ == normalized(path@),
{
    let marker = "./";
    proof {
        reveal_strlit("./");
        assert(marker@ == relative_marker());
    }
    match strip_prefix_of(path, marker) {
        Some(rest) => rest,
        None => path,
    }
}

/// The pieces of a path's bytes between separators `/`, empty ones included.
pub open spec fn segments(b: Seq<u8>) -> Seq<Seq<u8>>
    decreases b.len(),
{
    if b.len() == 0 {
        seq![seq![]]
    } else {
        let s = segments(b.drop_last());
        if b.last() == 47u8 {
            s.push(seq![])
        } else {
            s.update(s.len() - 1, s.last().push(b.last()))
        }
    }
}

/// Each byte as the pair `1, byte`, so that a following `0` ends the name
/// before any longer name that continues it.
pub open spec fn escaped(s: Seq<u8>) -> Seq<u8>
    decreases s.len(),
{
    if s.len() == 0 {
        seq![]
    } else {
        escaped(s.drop_last()) + seq![1u8, s.last()]
    }
}

/// The key of a component after the first: none for an empty piece or `.`,
/// parent (`..`) before every name, a name by its bytes.
pub open spec fn segment_key(s: Seq<u8>) -> Seq<u8> {
    if s.len() == 0 || s == seq![46u8] {
        seq![]
    } else if s == seq![46u8, 46u8] {
        seq![3u8, 0u8]
    } else {
        seq![4u8] + escaped(s) + seq![0u8]
    }
}

/// The key of the first piece: the root for a leading `/`, the current
/// directory for a leading `.`, otherwise as any other component.
pub open spec fn first_key(s: Seq<u8>, whole_nonempty: bool) -> Seq<u8> {
    if s.len() == 0 {
        if whole_nonempty {
            seq![1u8, 0u8]
        } else {
            seq![]
        }
    } else if s == seq![46u8] {
        seq![2u8, 0u8]
    } else {
        segment_key(s)
    }
}

pub open spec fn keys_after(segs: Seq<Seq<u8>>) -> Seq<u8>
    decreases segs.len(),
{
    if segs.len() == 0 {
        seq![]
    } else {
        keys_after(segs.drop_last()) + segment_key(segs.last())
    }
}

/// A byte key whose order is the order of `std::path::Path` on Unix: paths
/// compare component by component (root, then `.`, then `..`, then names by
/// their bytes), with repeated separators and inner `.` components ignored.
pub open spec fn component_key(b: Seq<u8>) -> Seq<u8> {
    let segs = segments(b);
    first_key(segs[0], b.len() > 0) + keys_after(segs.skip(1))
}

/// The component key of a path text.
pub open spec fn path_key(path: Seq<char>) -> Seq<u8> {
    component_key(utf8(path))
}

proof fn lemma_segments_len(b: Seq<u8>)
    ensures
        segments(b).len() >= 1,
    decreases b.len(),
{
    if b.len() > 0 {
        lemma_segments_len(b.drop_last());
    }
}

fn append_escaped(out: &mut Vec<u8>, s: &Vec<u8>)
    ensures
        final(out)@ == old(out)@ + escaped(s@),
{
    let ghost start = out@;
    let mut i: usize = 0;
    while i < s.len()
        invariant
            i <= s@.len(),
            out@ == start + escaped(s@.take(i as int)),
        decreases s@.len() - i,
    {
        out.push(1u8);
        out.push(s[i]);
        proof {
            assert(s@.take(i + 1).drop_last() =~= s@.take(i as int));
            assert(out@ =~= start + escaped(s@.take(i + 1)));
        }
        i = i + 1;
    }
    assert(s@.take(i as int) =~= s@);
}

fn push_segment_key(out: &mut Vec<u8>, s: &Vec<u8>, first: bool, whole_nonempty: bool)
    ensures
        final(out)@ == old(out)@ + (if first {
            first_key(s@, whole_nonempty)
        } else {
            segment_key(s@)
        }),
{
    let ghost start = out@;
    let is_dot = s.len() == 1 && s[0] == 46u8;
    let is_dot_dot = s.len() == 2 && s[0] == 46u8 && s[1] == 46u8;
    proof {
        if s@.len() == 1 {
            assert(is_dot == (s@ == seq![46u8])) by {
                if s@ == seq![46u8] {
                    assert(s@[0] == 46u8);
                }
                if is_dot {
                    assert(s@ =~= seq![46u8]);
                }
            }
        } else {
            assert(s@ != seq![46u8]) by {
                assert(seq![46u8].len() == 1);
            }
        }
        if s@.len() == 2 {
            assert(is_dot_dot == (s@ == seq![46u8, 46u8])) by {
                if s@ == seq![46u8, 46u8] {
                    assert(s@[0] == 46u8 && s@[1] == 46u8);
                }
                if is_dot_dot {
                    assert(s@ =~= seq![46u8, 46u8]);
                }
            }
        } else {
            assert(s@ != seq![46u8, 46u8]) by {
                assert(seq![46u8, 46u8].len() == 2);
            }
        }
    }
    if first && s.len() == 0 {
        if whole_nonempty {
            out.push(1u8);
            out.push(0u8);
        }
    } else if first && is_dot {
        out.push(2u8);
        out.push(0u8);
    } else if s.len() == 0 || is_dot {
    } else if is_dot_dot {
        out.push(3u8);
        out.push(0u8);
    } else {
        out.push(4u8);
        append_escaped(out, s);
        out.push(0u8);
    }
    assert(out@ =~= start + (if first {
        first_key(s@, whole_nonempty)
    } else {
        segment_key(s@)
    }));
}

/// The key of the components of a path, in the order of `std::path::Path`.
pub fn path_component_key(path: &str) -> (r: Vec<u8>)
    ensures
        r@ == path_key(path@),
{
    let b = path.as_bytes();
    let ghost bytes = b@;
    let mut key: Vec<u8> = Vec::new();
    let mut cur: Vec<u8> = Vec::new();
    let mut first = true;
    let ghost mut done: Seq<Seq<u8>> = seq![];
    let mut i: usize = 0;
    while i < b.len()
        invariant
            bytes == b@,
            i <= bytes.len(),
            segments(bytes.take(i as int)) == done.push(cur@),
            first == (done.len() == 0),
            i == 0 ==> done.len() == 0,
            done.len() > 0 ==> i > 0,
            key@ == (if done.len() == 0 {
                seq![]
            } else {
                first_key(done[0], true) + keys_after(done.skip(1))
            }),
        decreases bytes.len() - i,
    {
        let c = b[i];
        proof {
            assert(bytes.take(i + 1).drop_last() =~= bytes.take(i as int));
        }
        if c == 47u8 {
            let ghost old_key = key@;
            push_segment_key(&mut key, &cur, first, true);
            proof {
                let d2 = done.push(cur@);
                if done.len() > 0 {
                    assert(d2.skip(1) =~= done.skip(1).push(cur@));
                    assert(d2[0] == done[0]);
                    assert(done.skip(1).push(cur@).drop_last() =~= done.skip(1));
                    assert(keys_after(d2.skip(1)) == keys_after(done.skip(1)) + segment_key(cur@));
                    assert(key@ =~= first_key(d2[0], true) + keys_after(d2.skip(1)));
                } else {
                    assert(d2.skip(1) =~= Seq::<Seq<u8>>::empty());
                    assert(key@ =~= first_key(d2[0], true) + keys_after(d2.skip(1)));
                }
                done = d2;
            }
            cur = Vec::new();
            first = false;
        } else {
            let ghost old_cur = cur@;
            cur.push(c);
            proof {
                let s = segments(bytes.take(i as int));
                assert(s.len() - 1 == done.len());
                assert(s.update(s.len() - 1, s.last().push(c)) =~= done.push(cur@));
            }
        }
        i = i + 1;
    }
    proof {
        assert(bytes.take(i as int) =~= bytes);
        lemma_segments_len(bytes);
    }
    let ghost segs = done.push(cur@);
    push_segment_key(&mut key, &cur, first, b.len() > 0);
    proof {
        if done.len() > 0 {
            assert(segs.skip(1) =~= done.skip(1).push(cur@));
            assert(segs[0] == done[0]);
            assert(done.skip(1).push(cur@).drop_last() =~= done.skip(1));
            assert(keys_after(segs.skip(1)) == keys_after(done.skip(1)) + segment_key(cur@));
            assert(key@ =~= first_key(segs[0], bytes.len() > 0) + keys_after(segs.skip(1)));
        } else {
            assert(segs.skip(1) =~= Seq::<Seq<u8>>::empty());
            assert(key@ =~= first_key(segs[0], bytes.len() > 0) + keys_after(segs.skip(1)));
        }
    }
    key
}

} // verus!
