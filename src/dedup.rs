use vstd::prelude::*;

use smallvec::SmallVec;
use std::hash::Hasher;
use twox_hash::XxHash64;

use crate::sprite::InputSprite;

verus! {

/// The ids of the sprites that share one pixel content, kept inline for the
/// common case of a single id.
#[verifier::external_body]
pub struct AliasList {
    ids: SmallVec<[usize; 1]>,
}

/// The ids an alias list holds, in the order they were pushed.
pub uninterp spec fn alias_ids(list: AliasList) -> Seq<usize>;

/// The XXH64 digest (seed 0) of a byte string.
pub uninterp spec fn xxh64_digest(bytes: Seq<u8>) -> u64;

/// Relies on `twox_hash::XxHash64` (seeded with 0, fed the bytes once): the
/// digest depends on the bytes alone.
#[verifier::external_body]
fn content_digest(bytes: &Vec<u8>) -> (r: u64)
    ensures
        r == xxh64_digest(bytes@),
{
    let mut hasher = XxHash64::with_seed(0);
    hasher.write(bytes.as_slice());
    hasher.finish()
}

/// Relies on `SmallVec::new`: a list that holds nothing.
#[verifier::external_body]
fn alias_list_new() -> (r: AliasList)
    ensures
        alias_ids(r) == Seq::<usize>::empty(),
{
    AliasList { ids: SmallVec::new() }
}

/// Relies on `SmallVec::push`: the id is appended at the end.
#[verifier::external_body]
fn alias_list_push(list: &mut AliasList, id: usize)
    ensures
        alias_ids(*final(list)) == alias_ids(*old(list)).push(id),
{
    list.ids.push(id)
}

/// Relies on `SmallVec::len`: the number of ids held.
#[verifier::external_body]
pub(crate) fn alias_list_len(list: &AliasList) -> (r: usize)
    ensures
        r == alias_ids(*list).len(),
{
    list.ids.len()
}

/// Relies on `SmallVec::as_slice`: the id at position `index`.
#[verifier::external_body]
pub(crate) fn alias_list_get(list: &AliasList, index: usize) -> (r: usize)
    requires
        index < alias_ids(*list).len(),
    ensures
        r == alias_ids(*list)[index as int],
{
    list.ids.as_slice()[index]
}

/// The ids an alias list holds, in order.
pub fn alias_list_ids(list: &AliasList) -> (r: Vec<usize>)
    ensures
        r@ == alias_ids(*list),
{
    let count = alias_list_len(list);
    let mut ids: Vec<usize> = Vec::new();
    let mut k: usize = 0;
    while k < count
        invariant
            k <= count,
            count == alias_ids(*list).len(),
            ids@ == alias_ids(*list).subrange(0, k as int),
        decreases count - k,
    {
        ids.push(alias_list_get(list, k));
        proof {
            assert(alias_ids(*list).subrange(0, k + 1) =~= alias_ids(*list).subrange(0, k as int).push(
                alias_ids(*list)[k as int],
            ));
        }
        k = k + 1;
    }
    proof {
        assert(alias_ids(*list).subrange(0, count as int) =~= alias_ids(*list));
    }
    ids
}

/// The pixel contents of the inputs, in order.
pub open spec fn contents_of(input: Seq<InputSprite>) -> Seq<Seq<u8>> {
    input.map_values(|s: InputSprite| s.bytes@)
}

/// Sprite `i` is the first one with its pixel content.
pub open spec fn is_first_copy(contents: Seq<Seq<u8>>, i: int) -> bool {
    forall|j: int| 0 <= j < i ==> contents[j] != contents[i]
}

/// The ids of each alias list.
pub open spec fn group_ids(groups: Seq<AliasList>) -> Seq<Seq<usize>> {
    groups.map_values(|l: AliasList| alias_ids(l))
}

/// Some list of `groups` holds the id `j`.
pub open spec fn listed(groups: Seq<Seq<usize>>, j: int) -> bool {
    exists|r: int| 0 <= r < groups.len() && (#[trigger] groups[r]).contains(j as usize)
}

/// `groups[r]` lists, for the first sprite `r` of each pixel content, every
/// sprite with that content: `r` itself first, each once; the lists of the
/// other sprites are empty. Together the lists hold every id once.
pub open spec fn groups_wf(contents: Seq<Seq<u8>>, groups: Seq<Seq<usize>>) -> bool {
    &&& groups.len() == contents.len()
    &&& forall|r: int|
        0 <= r < groups.len() ==> ((#[trigger] groups[r]).len() > 0) == is_first_copy(contents, r)
    &&& forall|r: int| 0 <= r < groups.len() && (#[trigger] groups[r]).len() > 0 ==> groups[r][0] == r
    &&& forall|r: int, k: int|
        0 <= r < groups.len() && 0 <= k < (#[trigger] groups[r]).len() ==> {
            &&& (#[trigger] groups[r][k]) < contents.len()
            &&& contents[groups[r][k] as int] == contents[r]
        }
    &&& forall|r: int| 0 <= r < groups.len() ==> (#[trigger] groups[r]).no_duplicates()
    &&& forall|j: int| 0 <= j < contents.len() ==> #[trigger] listed(groups, j)
}

/// Whether two byte buffers hold the same bytes.
fn same_bytes(a: &Vec<u8>, b: &Vec<u8>) -> (r: bool)
    ensures
        r == (a@ == b@),
{
    if a.len() != b.len() {
        return false;
    }
    let mut k: usize = 0;
    while k < a.len()
        invariant
            a.len() == b.len(),
            k <= a.len(),
            forall|m: int| 0 <= m < k ==> a@[m] == b@[m],
        decreases a.len() - k,
    {
        if a[k] != b[k] {
            return false;
        }
        k = k + 1;
    }
    assert(a@ =~= b@);
    true
}

/// Groups the sprites by pixel content. Each sprite's content digest is
/// compared with those of the earlier first copies, and on a match the bytes
/// themselves; the first sprite of each content heads its group.
pub fn alias_groups(input: &Vec<InputSprite>) -> (groups: Vec<AliasList>)
    ensures
        groups_wf(contents_of(input@), group_ids(groups@)),
{
    let n = input.len();
    let ghost contents = contents_of(input@);
    let mut digests: Vec<u64> = Vec::new();
    let mut groups: Vec<AliasList> = Vec::new();
    let mut i: usize = 0;
    while i < n
        invariant
            n == input.len(),
            contents == contents_of(input@),
            i <= n,
            groups.len() == i,
            digests.len() == i,
            forall|m: int| 0 <= m < i ==> #[trigger] digests[m] == xxh64_digest(contents[m]),
            forall|r: int|
                0 <= r < i ==> (alias_ids(#[trigger] groups[r]).len() > 0) == is_first_copy(
                    contents,
                    r,
                ),
            forall|r: int|
                0 <= r < i && alias_ids(#[trigger] groups[r]).len() > 0 ==> alias_ids(groups[r])[0]
                    == r,
            forall|r: int, k: int|
                0 <= r < i && 0 <= k < alias_ids(#[trigger] groups[r]).len() ==> {
                    &&& #[trigger] alias_ids(groups[r])[k] < i
                    &&& contents[alias_ids(groups[r])[k] as int] == contents[r]
                },
            forall|r: int| 0 <= r < i ==> alias_ids(#[trigger] groups[r]).no_duplicates(),
            forall|j: int| 0 <= j < i ==> #[trigger] listed(group_ids(groups@), j),
        decreases n - i,
    {
        let d = content_digest(&input[i].bytes);
        let mut found = false;
        let mut rep: usize = 0;
        let mut j: usize = 0;
        while j < i && !found
            invariant
                n == input.len(),
                contents == contents_of(input@),
                i < n,
                j <= i,
                groups.len() == i,
                digests.len() == i,
                d == xxh64_digest(contents[i as int]),
                forall|m: int| 0 <= m < i ==> #[trigger] digests[m] == xxh64_digest(contents[m]),
                !found ==> forall|m: int|
                    0 <= m < j ==> !(alias_ids(#[trigger] groups[m]).len() > 0 && contents[m]
                        == contents[i as int]),
                found ==> rep < i && alias_ids(groups[rep as int]).len() > 0 && contents[rep as int]
                    == contents[i as int],
            decreases i - j + (if found {
                0int
            } else {
                1int
            }),
        {
            if alias_list_len(&groups[j]) > 0 && digests[j] == d && same_bytes(
                &input[j].bytes,
                &input[i].bytes,
            ) {
                found = true;
                rep = j;
            } else {
                proof {
                    if alias_ids(groups[j as int]).len() > 0 && contents[j as int] == contents[i as int] {
                        assert(digests[j as int] == d);
                        assert(input@[j as int].bytes@ == contents[j as int]);
                    }
                }
                j = j + 1;
            }
        }
        digests.push(d);
        let ghost before = groups@;
        if found {
            let mut list = groups.remove(rep);
            alias_list_push(&mut list, i);
            groups.insert(rep, list);
            groups.push(alias_list_new());
            proof {
                assert(!is_first_copy(contents, i as int)) by {
                    assert(contents[rep as int] == contents[i as int]);
                }
                assert forall|r: int| 0 <= r < i + 1 implies #[trigger] groups@[r] == (if r
                    == rep {
                    list
                } else if r < i {
                    before[r]
                } else {
                    groups@[r]
                }) by {}
            }
        } else {
            let mut list = alias_list_new();
            alias_list_push(&mut list, i);
            groups.push(list);
            proof {
                assert(is_first_copy(contents, i as int)) by {
                    assert forall|m: int| 0 <= m < i implies contents[m] != contents[i as int] by {
                        if contents[m] == contents[i as int] {
                            assert(listed(group_ids(before), m));
                            let r = choose|r: int|
                                0 <= r < i && (#[trigger] group_ids(before)[r]).contains(m as usize);
                            assert(group_ids(before)[r] == alias_ids(before[r]));
                            let k = choose|k: int|
                                0 <= k < alias_ids(before[r]).len() && alias_ids(before[r])[k]
                                    == m as usize;
                            assert(alias_ids(before[r])[k] == m as usize);
                            assert(contents[r] == contents[m]);
                            assert(alias_ids(before[r]).len() > 0);
                        }
                    }
                }
                assert(alias_ids(list) =~= seq![i]);
            }
        }
        proof {
            let new_ids = alias_ids(groups@[rep as int]);
            assert forall|m: int| 0 <= m < i + 1 implies #[trigger] digests[m] == xxh64_digest(
                contents[m],
            ) by {
                if m == i {
                    assert(input@[m].bytes@ == contents[m]);
                }
            }
            assert forall|r: int, k: int|
                0 <= r < i + 1 && 0 <= k < alias_ids(#[trigger] groups@[r]).len() implies {
                    &&& #[trigger] alias_ids(groups@[r])[k] < i + 1
                    &&& contents[alias_ids(groups@[r])[k] as int] == contents[r]
                } by {
                if found && r == rep && k == alias_ids(before[r]).len() {
                    assert(alias_ids(groups@[r])[k] == i);
                } else if r < i && !(found && r == rep) {
                    assert(groups@[r] == before[r]);
                } else if found && r == rep {
                    assert(alias_ids(groups@[r])[k] == alias_ids(before[r])[k]);
                }
            }
            assert forall|r: int| 0 <= r < i + 1 implies alias_ids(
                #[trigger] groups@[r],
            ).no_duplicates() by {
                if found && r == rep {
                    let old_ids = alias_ids(before[r]);
                    assert(alias_ids(groups@[r]) == old_ids.push(i));
                    assert forall|a: int, b: int|
                        0 <= a < b < old_ids.len() + 1 implies old_ids.push(i)[a] != old_ids.push(
                            i,
                        )[b] by {
                        if b == old_ids.len() {
                            assert(old_ids[a] < i);
                        }
                    }
                } else if r < i {
                    assert(groups@[r] == before[r]);
                }
            }
            assert forall|r: int|
                0 <= r < i + 1 implies (alias_ids(#[trigger] groups@[r]).len() > 0) == is_first_copy(
                contents,
                r,
            ) by {
                if r < i && !(found && r == rep) {
                    assert(groups@[r] == before[r]);
                }
            }
            assert forall|r: int|
                0 <= r < i + 1 && alias_ids(#[trigger] groups@[r]).len() > 0 implies alias_ids(
                groups@[r],
            )[0] == r by {
                if r < i && !(found && r == rep) {
                    assert(groups@[r] == before[r]);
                } else if found && r == rep {
                    assert(alias_ids(groups@[r])[0] == alias_ids(before[r])[0]);
                }
            }
            let g = group_ids(groups@);
            assert forall|m: int| 0 <= m < i + 1 implies #[trigger] listed(g, m) by {
                if m == i {
                    if found {
                        assert(alias_ids(groups@[rep as int]).last() == i);
                        assert(g[rep as int] == alias_ids(groups@[rep as int]));
                        assert(g[rep as int].contains(m as usize));
                    } else {
                        assert(alias_ids(groups@[m]) == seq![i]);
                        assert(alias_ids(groups@[m])[0] == i);
                        assert(g[m] == alias_ids(groups@[m]));
                        assert(g[m].contains(m as usize));
                    }
                } else {
                    assert(listed(group_ids(before), m));
                    let r = choose|r: int| 0 <= r < i && (#[trigger] group_ids(before)[r]).contains(m as usize);
                    assert(group_ids(before)[r] == alias_ids(before[r]));
                    let k = choose|k: int| 0 <= k < alias_ids(before[r]).len() && alias_ids(before[r])[k] == m as usize;
                    assert(g[r] == alias_ids(groups@[r]));
                    if found && r == rep {
                        assert(alias_ids(groups@[r])[k] == m as usize);
                    } else {
                        assert(groups@[r] == before[r]);
                    }
                    assert(g[r].contains(m as usize));
                }
            }
        }
        i = i + 1;
    }
    proof {
        let g = group_ids(groups@);
        assert forall|r: int| 0 <= r < g.len() implies #[trigger] g[r] == alias_ids(groups@[r]) by {}
        assert forall|r: int, k: int|
            0 <= r < g.len() && 0 <= k < (#[trigger] g[r]).len() implies {
                &&& (#[trigger] g[r][k]) < contents.len()
                &&& contents[g[r][k] as int] == contents[r]
            } by {
            assert(g[r] == alias_ids(groups@[r]));
            assert(alias_ids(groups@[r])[k] < n);
        }
    }
    groups
}

} // verus!
