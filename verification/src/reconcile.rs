//! The reconciliation engine: merge the two sources' record sets into
//! one deduplicated list keyed by (protocol, port), preferring records
//! that carry a known owner, and sort the result by (port, protocol).

use vstd::prelude::*;

use crate::records::{valid_record, valid_records, PortInfo, RecordModel};
use crate::strutil::str_eq;

verus! {

/// The dedup key of a record.
pub open spec fn key_of(r: RecordModel) -> (Seq<char>, u16) {
    (r.protocol, r.port)
}

/// Some record of `s` carries key `k`.
pub open spec fn has_key(s: Seq<RecordModel>, k: (Seq<char>, u16)) -> bool {
    exists|i: int| 0 <= i < s.len() && key_of(#[trigger] s[i]) == k
}

/// Insert a primary-source record: a record already present for the key
/// is kept, unless it lacks a known owner and the new one has one.
pub open spec fn upsert_preferring_known(
    m: Map<(Seq<char>, u16), RecordModel>,
    r: RecordModel,
) -> Map<(Seq<char>, u16), RecordModel> {
    let k = key_of(r);
    if m.contains_key(k) {
        if m[k].pid == 0 && r.pid > 0 {
            m.insert(k, r)
        } else {
            m
        }
    } else {
        m.insert(k, r)
    }
}

/// Insert a secondary-source record only where the key is absent.
pub open spec fn upsert_if_absent(
    m: Map<(Seq<char>, u16), RecordModel>,
    r: RecordModel,
) -> Map<(Seq<char>, u16), RecordModel> {
    if m.contains_key(key_of(r)) {
        m
    } else {
        m.insert(key_of(r), r)
    }
}

/// The keyed map after inserting every primary record in order.
pub open spec fn primary_fold(s: Seq<RecordModel>) -> Map<(Seq<char>, u16), RecordModel>
    decreases s.len(),
{
    if s.len() == 0 {
        Map::empty()
    } else {
        upsert_preferring_known(primary_fold(s.drop_last()), s.last())
    }
}

/// The keyed map after folding in the secondary records.
pub open spec fn merged_fold(a: Seq<RecordModel>, b: Seq<RecordModel>) -> Map<
    (Seq<char>, u16),
    RecordModel,
>
    decreases b.len(),
{
    if b.len() == 0 {
        primary_fold(a)
    } else {
        upsert_if_absent(merged_fold(a, b.drop_last()), b.last())
    }
}

/// Sort rank of a protocol name: the two known protocols order
/// alphabetically, tcp before udp.
pub open spec fn proto_rank(p: Seq<char>) -> int {
    if p == "udp"@ {
        1
    } else {
        0
    }
}

/// Ordering of records by (port, protocol).
pub open spec fn record_le(x: RecordModel, y: RecordModel) -> bool {
    x.port < y.port || (x.port == y.port && proto_rank(x.protocol) <= proto_rank(y.protocol))
}

/// `s` is sorted ascending by (port, protocol).
pub open spec fn sorted_records(s: Seq<RecordModel>) -> bool {
    forall|i: int, j: int| 0 <= i < j < s.len() ==> record_le(#[trigger] s[i], #[trigger] s[j])
}

/// No two records of `s` share a key.
pub open spec fn unique_keys(s: Seq<RecordModel>) -> bool {
    forall|i: int, j: int|
        0 <= i < j < s.len() ==> key_of(#[trigger] s[i]) != key_of(#[trigger] s[j])
}

/// `v` lists exactly the contents of the keyed map `m`: its keys are
/// distinct, each of its records is the map's record for that key, and
/// every key of the map appears.
pub open spec fn represents(v: Seq<RecordModel>, m: Map<(Seq<char>, u16), RecordModel>) -> bool {
    &&& unique_keys(v)
    &&& forall|i: int|
        0 <= i < v.len() ==> m.contains_key(key_of(#[trigger] v[i])) && v[i] == m[key_of(v[i])]
    &&& forall|k: (Seq<char>, u16)| #[trigger] m.contains_key(k) ==> has_key(v, k)
}

/// What the merge returns: a sorted, deduplicated listing of the keyed
/// map built by folding the primary records and then the secondary
/// ones.
pub open spec fn merge_post(
    a: Seq<RecordModel>,
    b: Seq<RecordModel>,
    r: Seq<RecordModel>,
) -> bool {
    sorted_records(r) && represents(r, merged_fold(a, b))
}

/// The index of the record of `acc` sharing `rec`'s key, if any.
fn find_key(acc: &Vec<PortInfo>, rec: &PortInfo) -> (r: Option<usize>)
    ensures
        match r {
            Some(j) => j < acc@.len() && key_of(acc@[j as int]@) == key_of(rec@),
            None => !has_key(acc.deep_view(), key_of(rec@)),
        },
{
    let n = acc.len();
    let mut j: usize = 0;
    while j < n
        invariant
            j <= n,
            n == acc@.len(),
            forall|l: int| 0 <= l < j ==> key_of(#[trigger] acc.deep_view()[l]) != key_of(rec@),
        decreases n - j,
    {
        proof {
            assert(acc.deep_view()[j as int] == acc@[j as int]@);
        }
        if acc[j].port == rec.port && str_eq(acc[j].protocol.as_str(), rec.protocol.as_str()) {
            return Some(j);
        }
        j = j + 1;
    }
    proof {
        assert(acc.deep_view().len() == n);
    }
    None
}

/// Merge the primary record set `a` with the secondary set `b`:
/// one record per (protocol, port) key, `a`'s record preferred (and,
/// within `a`, an owner-carrying record preferred over an ownerless
/// one), `b` filling only the keys `a` lacks; the result is sorted
/// ascending by (port, protocol).
pub fn merge_port_records(a: &Vec<PortInfo>, b: &Vec<PortInfo>) -> (r: Vec<PortInfo>)
    requires
        valid_records(a.deep_view()),
        valid_records(b.deep_view()),
    ensures
        merge_post(a.deep_view(), b.deep_view(), r.deep_view()),
        valid_records(r.deep_view()),
{
    let ghost adv = a.deep_view();
    let ghost bdv = b.deep_view();
    let mut acc: Vec<PortInfo> = Vec::new();
    let na = a.len();
    let mut i: usize = 0;
    proof {
        assert(adv.take(0) =~= Seq::<RecordModel>::empty());
        assert(acc.deep_view() =~= Seq::<RecordModel>::empty());
    }
    while i < na
        invariant
            i <= na,
            na == a@.len(),
            adv == a.deep_view(),
            adv.len() == na,
            valid_records(adv),
            represents(acc.deep_view(), primary_fold(adv.take(i as int))),
            valid_records(acc.deep_view()),
        decreases na - i,
    {
        let ghost pre = acc.deep_view();
        let ghost m = primary_fold(adv.take(i as int));
        proof {
            assert(adv.take(i as int + 1).drop_last() =~= adv.take(i as int));
            assert(adv.take(i as int + 1).last() == adv[i as int]);
            assert(adv[i as int] == a@[i as int]@);
        }
        let rec = &a[i];
        match find_key(&acc, rec) {
            Some(j) => {
                if acc[j].pid == 0 && rec.pid > 0 {
                    proof {
                        assert(pre[j as int] == acc@[j as int]@);
                    }
                    acc.remove(j);
                    let ghost mid = acc.deep_view();
                    proof {
                        assert(mid =~~= pre.remove(j as int));
                    }
                    acc.push(rec.clone());
                    proof {
                        let post = acc.deep_view();
                        assert(post =~~= mid.push(rec@));
                        let m2 = primary_fold(adv.take(i as int + 1));
                        assert(m2 == m.insert(key_of(rec@), rec@));
                        assert forall|l: int, l2: int| 0 <= l < l2 < post.len() implies key_of(
                            #[trigger] post[l],
                        ) != key_of(#[trigger] post[l2]) by {
                            if l2 < post.len() - 1 {
                                // both from pre with one index shifted
                            } else {
                                assert(post[l2] == rec@);
                                if l < j {
                                    assert(post[l] == pre[l]);
                                    assert(key_of(pre[l]) != key_of(pre[j as int]));
                                } else {
                                    assert(post[l] == pre[l + 1]);
                                    assert(key_of(pre[l + 1]) != key_of(pre[j as int]));
                                }
                            }
                        }
                        assert forall|l: int| 0 <= l < post.len() implies m2.contains_key(
                            key_of(#[trigger] post[l]),
                        ) && post[l] == m2[key_of(post[l])] by {
                            if l < post.len() - 1 {
                                let orig = if l < j {
                                    l
                                } else {
                                    l + 1
                                };
                                assert(post[l] == pre[orig]);
                                assert(key_of(pre[orig]) != key_of(pre[j as int]));
                                assert(key_of(pre[j as int]) == key_of(rec@));
                            } else {
                                assert(post[l] == rec@);
                            }
                        }
                        assert forall|k: (Seq<char>, u16)| #[trigger]
                            m2.contains_key(k) implies has_key(post, k) by {
                            if k == key_of(rec@) {
                                assert(post[post.len() - 1] == rec@);
                            } else {
                                assert(m.contains_key(k));
                                let l = choose|l: int|
                                    0 <= l < pre.len() && key_of(#[trigger] pre[l]) == k;
                                if l < j {
                                    assert(post[l] == pre[l]);
                                } else if l > j {
                                    assert(post[l - 1] == pre[l]);
                                } else {
                                    assert(key_of(pre[j as int]) == key_of(rec@));
                                }
                            }
                        }
                        assert(represents(post, m2));
                        assert(valid_records(post)) by {
                            assert forall|l: int| 0 <= l < post.len() implies valid_record(
                                #[trigger] post[l],
                            ) by {
                                if l < post.len() - 1 {
                                    let orig = if l < j {
                                        l
                                    } else {
                                        l + 1
                                    };
                                    assert(post[l] == pre[orig]);
                                    assert(valid_record(pre[orig]));
                                } else {
                                    assert(post[l] == rec@);
                                    assert(valid_record(adv[i as int]));
                                }
                            }
                        }
                    }
                } else {
                    proof {
                        let m2 = primary_fold(adv.take(i as int + 1));
                        assert(m.contains_key(key_of(adv[i as int]))) by {
                            assert(key_of(pre[j as int]) == key_of(rec@));
                        }
                        assert(pre[j as int] == m[key_of(rec@)]);
                        if m[key_of(rec@)].pid == 0 && adv[i as int].pid > 0 {
                            assert(acc@[j as int]@.pid == 0);
                            assert(false);
                        }
                        assert(m2 == m);
                    }
                }
            },
            None => {
                acc.push(rec.clone());
                proof {
                    let post = acc.deep_view();
                    assert(post =~~= pre.push(rec@));
                    let m2 = primary_fold(adv.take(i as int + 1));
                    assert(!m.contains_key(key_of(rec@))) by {
                        if m.contains_key(key_of(rec@)) {
                            assert(has_key(pre, key_of(rec@)));
                        }
                    }
                    assert(m2 == m.insert(key_of(rec@), rec@));
                    assert forall|l: int, l2: int| 0 <= l < l2 < post.len() implies key_of(
                        #[trigger] post[l],
                    ) != key_of(#[trigger] post[l2]) by {
                        if l2 == post.len() - 1 {
                            assert(post[l] == pre[l]);
                            if key_of(pre[l]) == key_of(rec@) {
                                assert(has_key(pre, key_of(rec@)));
                            }
                        }
                    }
                    assert forall|k: (Seq<char>, u16)| #[trigger] m2.contains_key(
                        k,
                    ) implies has_key(post, k) by {
                        if k == key_of(rec@) {
                            assert(post[post.len() - 1] == rec@);
                        } else {
                            let l = choose|l: int|
                                0 <= l < pre.len() && key_of(#[trigger] pre[l]) == k;
                            assert(post[l] == pre[l]);
                        }
                    }
                    assert(represents(post, m2));
                    assert(valid_records(post)) by {
                        assert forall|l: int| 0 <= l < post.len() implies valid_record(
                            #[trigger] post[l],
                        ) by {
                            if l < post.len() - 1 {
                                assert(post[l] == pre[l]);
                            } else {
                                assert(post[l] == rec@);
                                assert(valid_record(adv[i as int]));
                            }
                        }
                    }
                }
            },
        }
        i = i + 1;
    }
    proof {
        assert(adv.take(na as int) =~= adv);
    }
    // fold in the secondary records where the key is absent
    let nb = b.len();
    let mut t: usize = 0;
    proof {
        assert(bdv.take(0) =~= Seq::<RecordModel>::empty());
        assert(merged_fold(adv, bdv.take(0)) == primary_fold(adv));
    }
    while t < nb
        invariant
            t <= nb,
            nb == b@.len(),
            adv == a.deep_view(),
            bdv == b.deep_view(),
            bdv.len() == nb,
            valid_records(bdv),
            represents(acc.deep_view(), merged_fold(adv, bdv.take(t as int))),
            valid_records(acc.deep_view()),
        decreases nb - t,
    {
        let ghost pre = acc.deep_view();
        let ghost m = merged_fold(adv, bdv.take(t as int));
        proof {
            assert(bdv.take(t as int + 1).drop_last() =~= bdv.take(t as int));
            assert(bdv.take(t as int + 1).last() == bdv[t as int]);
            assert(bdv[t as int] == b@[t as int]@);
        }
        let rec = &b[t];
        match find_key(&acc, rec) {
            Some(j) => {
                proof {
                    let m2 = merged_fold(adv, bdv.take(t as int + 1));
                    assert(m.contains_key(key_of(rec@))) by {
                        assert(key_of(pre[j as int]) == key_of(rec@));
                    }
                    assert(m2 == m);
                }
            },
            None => {
                acc.push(rec.clone());
                proof {
                    let post = acc.deep_view();
                    assert(post =~~= pre.push(rec@));
                    let m2 = merged_fold(adv, bdv.take(t as int + 1));
                    assert(!m.contains_key(key_of(rec@))) by {
                        if m.contains_key(key_of(rec@)) {
                            assert(has_key(pre, key_of(rec@)));
                        }
                    }
                    assert(m2 == m.insert(key_of(rec@), rec@));
                    assert forall|l: int, l2: int| 0 <= l < l2 < post.len() implies key_of(
                        #[trigger] post[l],
                    ) != key_of(#[trigger] post[l2]) by {
                        if l2 == post.len() - 1 {
                            assert(post[l] == pre[l]);
                            if key_of(pre[l]) == key_of(rec@) {
                                assert(has_key(pre, key_of(rec@)));
                            }
                        }
                    }
                    assert forall|k: (Seq<char>, u16)| #[trigger] m2.contains_key(
                        k,
                    ) implies has_key(post, k) by {
                        if k == key_of(rec@) {
                            assert(post[post.len() - 1] == rec@);
                        } else {
                            let l = choose|l: int|
                                0 <= l < pre.len() && key_of(#[trigger] pre[l]) == k;
                            assert(post[l] == pre[l]);
                        }
                    }
                    assert(represents(post, m2));
                    assert(valid_records(post)) by {
                        assert forall|l: int| 0 <= l < post.len() implies valid_record(
                            #[trigger] post[l],
                        ) by {
                            if l < post.len() - 1 {
                                assert(post[l] == pre[l]);
                            } else {
                                assert(post[l] == rec@);
                                assert(valid_record(bdv[t as int]));
                            }
                        }
                    }
                }
            },
        }
        t = t + 1;
    }
    proof {
        assert(bdv.take(nb as int) =~= bdv);
    }
    sort_records(acc)
}

/// Totality of the record order.
proof fn lemma_record_le_total(x: RecordModel, y: RecordModel)
    ensures
        record_le(x, y) || record_le(y, x),
{
}

/// Sort a deduplicated record list ascending by (port, protocol),
/// keeping exactly its records.
fn sort_records(v: Vec<PortInfo>) -> (r: Vec<PortInfo>)
    requires
        unique_keys(v.deep_view()),
        valid_records(v.deep_view()),
    ensures
        sorted_records(r.deep_view()),
        unique_keys(r.deep_view()),
        valid_records(r.deep_view()),
        forall|i: int|
            0 <= i < r.deep_view().len() ==> v.deep_view().contains(#[trigger] r.deep_view()[i]),
        forall|i: int|
            0 <= i < v.deep_view().len() ==> r.deep_view().contains(#[trigger] v.deep_view()[i]),
        r.deep_view().len() == v.deep_view().len(),
{
    let ghost vdv = v.deep_view();
    let n = v.len();
    let mut out: Vec<PortInfo> = Vec::new();
    let mut i: usize = 0;
    proof {
        assert(out.deep_view() =~= Seq::<RecordModel>::empty());
        assert(vdv.take(0) =~= Seq::<RecordModel>::empty());
    }
    while i < n
        invariant
            i <= n,
            n == v@.len(),
            vdv == v.deep_view(),
            vdv.len() == n,
            unique_keys(vdv),
            valid_records(vdv),
            out.deep_view().len() == i,
            sorted_records(out.deep_view()),
            forall|l: int|
                0 <= l < out.deep_view().len() ==> vdv.take(i as int).contains(
                    #[trigger] out.deep_view()[l],
                ),
            forall|l: int|
                0 <= l < i ==> out.deep_view().contains(#[trigger] vdv[l]),
        decreases n - i,
    {
        let ghost pre = out.deep_view();
        proof {
            assert(vdv[i as int] == v@[i as int]@);
        }
        let item = v[i].clone();
        let ghost x = item@;
        // find the insertion position: the first entry that must come
        // after the new record
        let m = out.len();
        let mut p: usize = 0;
        while p < m && record_le_exec(&out[p], &item)
            invariant
                p <= m,
                m == out@.len(),
                out.deep_view().len() == m,
                x == item@,
                forall|l: int| 0 <= l < p ==> record_le(#[trigger] out.deep_view()[l], x),
            decreases m - p,
        {
            proof {
                assert(out.deep_view()[p as int] == out@[p as int]@);
            }
            p = p + 1;
        }
        proof {
            if p < m {
                assert(out.deep_view()[p as int] == out@[p as int]@);
                lemma_record_le_total(out.deep_view()[p as int], x);
            }
        }
        out.insert(p, item);
        proof {
            let post = out.deep_view();
            assert(post =~~= pre.insert(p as int, x));
            assert(post.len() == pre.len() + 1);
            assert forall|l: int, l2: int| 0 <= l < l2 < post.len() implies record_le(
                #[trigger] post[l],
                #[trigger] post[l2],
            ) by {
                let ol = if l < p {
                    l
                } else {
                    l - 1
                };
                let ol2 = if l2 < p {
                    l2
                } else {
                    l2 - 1
                };
                if l == p {
                    assert(post[l] == x);
                    assert(post[l2] == pre[ol2]);
                    assert(ol2 >= p);
                    assert(record_le(x, pre[p as int]));
                    if ol2 > p {
                        assert(record_le(pre[p as int], pre[ol2]));
                    }
                } else if l2 == p {
                    assert(post[l2] == x);
                    assert(post[l] == pre[ol]);
                    assert(ol < p);
                    assert(record_le(pre[ol], x));
                } else {
                    assert(post[l] == pre[ol]);
                    assert(post[l2] == pre[ol2]);
                }
            }
            assert(sorted_records(post));
            assert forall|l: int| 0 <= l < post.len() implies vdv.take(i as int + 1).contains(
                #[trigger] post[l],
            ) by {
                if l == p {
                    assert(post[l] == x);
                    assert(vdv.take(i as int + 1)[i as int] == x);
                } else {
                    let ol = if l < p {
                        l
                    } else {
                        l - 1
                    };
                    assert(post[l] == pre[ol]);
                    assert(vdv.take(i as int).contains(pre[ol]));
                    let w = choose|w: int|
                        0 <= w < vdv.take(i as int).len() && vdv.take(i as int)[w] == pre[ol];
                    assert(vdv.take(i as int + 1)[w] == pre[ol]);
                }
            }
            assert forall|l: int| 0 <= l < i + 1 implies post.contains(#[trigger] vdv[l]) by {
                if l == i {
                    assert(post[p as int] == x);
                } else {
                    assert(pre.contains(vdv[l]));
                    let w = choose|w: int| 0 <= w < pre.len() && pre[w] == vdv[l];
                    if w < p {
                        assert(post[w] == pre[w]);
                    } else {
                        assert(post[w + 1] == pre[w]);
                    }
                }
            }
        }
        i = i + 1;
    }
    proof {
        let odv = out.deep_view();
        assert(vdv.take(n as int) =~= vdv);
        assert forall|l: int, l2: int| 0 <= l < l2 < odv.len() implies key_of(
            #[trigger] odv[l],
        ) != key_of(#[trigger] odv[l2]) by {
            lemma_unique_of_contained(odv, vdv, l, l2);
        }
        assert forall|l: int| 0 <= l < odv.len() implies valid_record(#[trigger] odv[l]) by {
            assert(vdv.contains(odv[l]));
            let w = choose|w: int| 0 <= w < vdv.len() && vdv[w] == odv[l];
            assert(valid_record(vdv[w]));
        }
    }
    out
}

/// Distinct positions of a sorted listing drawn from a unique-keyed
/// source hold records with distinct keys.
proof fn lemma_unique_of_contained(odv: Seq<RecordModel>, vdv: Seq<RecordModel>, l: int, l2: int)
    requires
        0 <= l < l2 < odv.len(),
        odv.len() == vdv.len(),
        unique_keys(vdv),
        forall|i: int| 0 <= i < odv.len() ==> vdv.contains(#[trigger] odv[i]),
        forall|i: int| 0 <= i < vdv.len() ==> odv.contains(#[trigger] vdv[i]),
    ensures
        key_of(odv[l]) != key_of(odv[l2]),
{
    if key_of(odv[l]) == key_of(odv[l2]) {
        let w = choose|w: int| 0 <= w < vdv.len() && vdv[w] == odv[l];
        let w2 = choose|w2: int| 0 <= w2 < vdv.len() && vdv[w2] == odv[l2];
        if w != w2 {
            assert(key_of(vdv[w]) != key_of(vdv[w2])) by {
                if w < w2 {
                    assert(unique_keys(vdv));
                } else {
                    assert(unique_keys(vdv));
                }
            }
            assert(false);
        }
        // the same source record sits at two output positions; remove it
        // once from the source and twice from the output, and embed the
        // remaining unique-keyed source into the shorter remainder
        assert(odv[l] == odv[l2]);
        let x = odv[l];
        let vdv2 = vdv.remove(w);
        let odv2 = odv.remove(l2).remove(l);
        assert(vdv2.len() == vdv.len() - 1);
        assert(odv2.len() == odv.len() - 2);
        assert forall|i: int| 0 <= i < vdv2.len() implies odv2.contains(#[trigger] vdv2[i]) by {
            let orig = if i < w {
                i
            } else {
                i + 1
            };
            assert(vdv2[i] == vdv[orig]);
            assert(vdv[orig] != x) by {
                if vdv[orig] == x {
                    assert(key_of(vdv[orig]) == key_of(vdv[w]));
                    if orig < w {
                        assert(key_of(vdv[orig]) != key_of(vdv[w]));
                    } else {
                        assert(key_of(vdv[w]) != key_of(vdv[orig]));
                    }
                }
            }
            assert(odv.contains(vdv[orig]));
            let o = choose|o: int| 0 <= o < odv.len() && odv[o] == vdv[orig];
            assert(o != l && o != l2);
            let o2 = if o < l {
                o
            } else if o < l2 {
                o - 1
            } else {
                o - 2
            };
            assert(odv2[o2] == odv[o]);
        }
        assert(unique_keys(vdv2)) by {
            assert forall|i: int, j: int| 0 <= i < j < vdv2.len() implies key_of(
                #[trigger] vdv2[i],
            ) != key_of(#[trigger] vdv2[j]) by {
                let oi = if i < w {
                    i
                } else {
                    i + 1
                };
                let oj = if j < w {
                    j
                } else {
                    j + 1
                };
                assert(vdv2[i] == vdv[oi]);
                assert(vdv2[j] == vdv[oj]);
            }
        }
        lemma_distinct_embed(vdv2, odv2);
        assert(false);
    }
}

/// A sequence of records with pairwise distinct keys that all occur in
/// another sequence is no longer than it.
proof fn lemma_distinct_embed(src: Seq<RecordModel>, dst: Seq<RecordModel>)
    requires
        unique_keys(src),
        forall|i: int| 0 <= i < src.len() ==> dst.contains(#[trigger] src[i]),
    ensures
        src.len() <= dst.len(),
    decreases src.len(),
{
    if src.len() > 0 {
        let x = src[0];
        assert(dst.contains(x));
        let o = choose|o: int| 0 <= o < dst.len() && dst[o] == x;
        let dst2 = dst.remove(o);
        let src2 = src.drop_first();
        assert forall|i: int| 0 <= i < src2.len() implies dst2.contains(#[trigger] src2[i]) by {
            assert(src2[i] == src[i + 1]);
            assert(key_of(src[0]) != key_of(src[i + 1]));
            assert(src[i + 1] != x);
            assert(dst.contains(src[i + 1]));
            let o2 = choose|o2: int| 0 <= o2 < dst.len() && dst[o2] == src[i + 1];
            assert(o2 != o);
            let o3 = if o2 < o {
                o2
            } else {
                o2 - 1
            };
            assert(dst2[o3] == dst[o2]);
        }
        assert(unique_keys(src2)) by {
            assert forall|i: int, j: int| 0 <= i < j < src2.len() implies key_of(
                #[trigger] src2[i],
            ) != key_of(#[trigger] src2[j]) by {
                assert(src2[i] == src[i + 1]);
                assert(src2[j] == src[j + 1]);
            }
        }
        lemma_distinct_embed(src2, dst2);
    }
}

// ───────────────────────── reconciliation laws ─────────────────────────

/// A unique-keyed record list is its own primary fold.
proof fn lemma_primary_unique(a: Seq<RecordModel>)
    requires
        unique_keys(a),
    ensures
        represents(a, primary_fold(a)),
    decreases a.len(),
{
    if a.len() > 0 {
        let a2 = a.drop_last();
        assert(unique_keys(a2)) by {
            assert(forall|i: int, j: int|
                0 <= i < j < a2.len() ==> #[trigger] a2[i] == a[i] && #[trigger] a2[j] == a[j]);
        }
        lemma_primary_unique(a2);
        let m2 = primary_fold(a2);
        let x = a.last();
        assert(!m2.contains_key(key_of(x))) by {
            if m2.contains_key(key_of(x)) {
                assert(has_key(a2, key_of(x)));
                let l = choose|l: int| 0 <= l < a2.len() && key_of(#[trigger] a2[l]) == key_of(x);
                assert(a2[l] == a[l]);
                assert(key_of(a[l]) != key_of(a[a.len() - 1]));
            }
        }
        let m = primary_fold(a);
        assert(m == m2.insert(key_of(x), x));
        assert forall|i: int| 0 <= i < a.len() implies m.contains_key(key_of(#[trigger] a[i]))
            && a[i] == m[key_of(a[i])] by {
            if i < a.len() - 1 {
                assert(a2[i] == a[i]);
                assert(key_of(a[i]) != key_of(x));
            }
        }
        assert forall|k: (Seq<char>, u16)| #[trigger] m.contains_key(k) implies has_key(a, k) by {
            if k == key_of(x) {
                assert(key_of(a[a.len() - 1]) == k);
            } else {
                assert(m2.contains_key(k));
                assert(has_key(a2, k));
                let l = choose|l: int| 0 <= l < a2.len() && key_of(#[trigger] a2[l]) == k;
                assert(key_of(a[l]) == k);
            }
        }
    }
}

/// Folding in secondary records whose keys are already present changes
/// nothing.
proof fn lemma_fold_b_noop(a: Seq<RecordModel>, b: Seq<RecordModel>)
    requires
        forall|j: int|
            0 <= j < b.len() ==> primary_fold(a).contains_key(key_of(#[trigger] b[j])),
    ensures
        merged_fold(a, b) == primary_fold(a),
    decreases b.len(),
{
    if b.len() > 0 {
        let b2 = b.drop_last();
        assert(forall|j: int|
            0 <= j < b2.len() ==> #[trigger] b2[j] == b[j] && primary_fold(a).contains_key(
                key_of(b[j]),
            ));
        lemma_fold_b_noop(a, b2);
        assert(key_of(b.last()) == key_of(b[b.len() - 1]));
    }
}

/// The secondary fold never changes a key the primary fold already
/// holds.
proof fn lemma_fold_b_preserves(a: Seq<RecordModel>, b: Seq<RecordModel>, k: (Seq<char>, u16))
    requires
        primary_fold(a).contains_key(k),
    ensures
        merged_fold(a, b).contains_key(k),
        merged_fold(a, b)[k] == primary_fold(a)[k],
    decreases b.len(),
{
    if b.len() > 0 {
        lemma_fold_b_preserves(a, b.drop_last(), k);
    }
}

/// Two sorted, unique-keyed listings of one keyed map of valid records
/// are the same sequence.
proof fn lemma_listing_unique(
    v: Seq<RecordModel>,
    w: Seq<RecordModel>,
    m: Map<(Seq<char>, u16), RecordModel>,
)
    requires
        sorted_records(v),
        sorted_records(w),
        valid_records(v),
        valid_records(w),
        represents(v, m),
        represents(w, m),
    ensures
        v == w,
    decreases v.len(),
{
    if v.len() == 0 {
        if w.len() > 0 {
            assert(m.contains_key(key_of(w[0])));
            assert(has_key(v, key_of(w[0])));
        }
        assert(v =~= w);
    } else {
        let k0 = key_of(v[0]);
        assert(m.contains_key(k0));
        assert(has_key(w, k0));
        let j = choose|j: int| 0 <= j < w.len() && key_of(#[trigger] w[j]) == k0;
        assert(w[j] == m[k0]);
        assert(v[0] == m[k0]);
        // heads are equal: order both ways plus validity forces one key
        let kw = key_of(w[0]);
        assert(m.contains_key(kw));
        assert(has_key(v, kw));
        let l = choose|l: int| 0 <= l < v.len() && key_of(#[trigger] v[l]) == kw;
        assert(v[l] == m[kw]);
        assert(w[0] == m[kw]);
        assert(record_le(v[0], v[l]) || l == 0);
        assert(record_le(w[0], w[j]) || j == 0);
        assert(record_le(v[0], w[0]) && record_le(w[0], v[0])) by {
            if l > 0 {
                assert(record_le(v[0], v[l]));
            }
            if j > 0 {
                assert(record_le(w[0], w[j]));
            }
        }
        assert(v[0].port == w[0].port);
        assert(proto_rank(v[0].protocol) == proto_rank(w[0].protocol));
        assert(v[0].protocol == w[0].protocol) by {
            assert(valid_record(v[0]));
            assert(valid_record(w[0]));
        }
        assert(kw == k0);
        assert(w[0] == v[0]);
        // recurse on the tails over the map without the shared head key
        let m2 = m.remove(k0);
        let v2 = v.drop_first();
        let w2 = w.drop_first();
        assert(represents(v2, m2)) by {
            lemma_tail_represents(v, m, k0);
        }
        assert(represents(w2, m2)) by {
            lemma_tail_represents(w, m, k0);
        }
        assert(sorted_records(v2) && valid_records(v2)) by {
            assert(forall|i: int| 0 <= i < v2.len() ==> #[trigger] v2[i] == v[i + 1]);
            assert(forall|i: int, j2: int|
                0 <= i < j2 < v2.len() ==> #[trigger] v2[i] == v[i + 1] && #[trigger] v2[j2]
                    == v[j2 + 1]);
        }
        assert(sorted_records(w2) && valid_records(w2)) by {
            assert(forall|i: int| 0 <= i < w2.len() ==> #[trigger] w2[i] == w[i + 1]);
            assert(forall|i: int, j2: int|
                0 <= i < j2 < w2.len() ==> #[trigger] w2[i] == w[i + 1] && #[trigger] w2[j2]
                    == w[j2 + 1]);
        }
        lemma_listing_unique(v2, w2, m2);
        assert(v =~= w) by {
            assert(forall|i: int| 1 <= i < v.len() ==> #[trigger] v[i] == v2[i - 1]);
            assert(forall|i: int| 1 <= i < w.len() ==> #[trigger] w[i] == w2[i - 1]);
        }
    }
}

/// Dropping the head of a listing lists the map without the head's key.
proof fn lemma_tail_represents(
    v: Seq<RecordModel>,
    m: Map<(Seq<char>, u16), RecordModel>,
    k0: (Seq<char>, u16),
)
    requires
        v.len() > 0,
        represents(v, m),
        k0 == key_of(v[0]),
    ensures
        represents(v.drop_first(), m.remove(k0)),
{
    let v2 = v.drop_first();
    let m2 = m.remove(k0);
    assert(forall|i: int| 0 <= i < v2.len() ==> #[trigger] v2[i] == v[i + 1]);
    assert(unique_keys(v2)) by {
        assert(forall|i: int, j: int|
            0 <= i < j < v2.len() ==> #[trigger] v2[i] == v[i + 1] && #[trigger] v2[j]
                == v[j + 1]);
    }
    assert forall|i: int| 0 <= i < v2.len() implies m2.contains_key(key_of(#[trigger] v2[i]))
        && v2[i] == m2[key_of(v2[i])] by {
        assert(v2[i] == v[i + 1]);
        assert(key_of(v[i + 1]) != k0);
    }
    assert forall|k: (Seq<char>, u16)| #[trigger] m2.contains_key(k) implies has_key(v2, k) by {
        assert(m.contains_key(k));
        assert(has_key(v, k));
        let l = choose|l: int| 0 <= l < v.len() && key_of(#[trigger] v[l]) == k;
        assert(l != 0);
        assert(v2[l - 1] == v[l]);
    }
}

/// Every key that some primary record carries is in the primary fold.
proof fn lemma_primary_fold_dom(a: Seq<RecordModel>, j: int)
    requires
        0 <= j < a.len(),
    ensures
        primary_fold(a).contains_key(key_of(a[j])),
    decreases a.len(),
{
    if j == a.len() - 1 {
        assert(a.last() == a[j]);
    } else {
        lemma_primary_fold_dom(a.drop_last(), j);
        assert(a.drop_last()[j] == a[j]);
    }
}

/// Every record held by the primary fold comes from the record list.
proof fn lemma_primary_fold_values(a: Seq<RecordModel>, k: (Seq<char>, u16))
    requires
        primary_fold(a).contains_key(k),
    ensures
        exists|i: int| 0 <= i < a.len() && #[trigger] a[i] == primary_fold(a)[k],
    decreases a.len(),
{
    if a.len() > 0 {
        let m2 = primary_fold(a.drop_last());
        let m = primary_fold(a);
        if m[k] == a.last() && k == key_of(a.last()) {
            assert(a[a.len() - 1] == m[k]);
        } else {
            assert(m2.contains_key(k) && m[k] == m2[k]);
            lemma_primary_fold_values(a.drop_last(), k);
            let i = choose|i: int|
                0 <= i < a.drop_last().len() && #[trigger] a.drop_last()[i] == m2[k];
            assert(a[i] == a.drop_last()[i]);
        }
    }
}

/// Merging any record set with itself gives the same result as merging
/// it with an empty secondary set: the set contributes nothing new on
/// the secondary side.
pub proof fn lemma_merge_self_like_alone(
    a: Seq<RecordModel>,
    r: Seq<RecordModel>,
    r_alone: Seq<RecordModel>,
)
    requires
        valid_records(a),
        merge_post(a, a, r),
        merge_post(a, Seq::<RecordModel>::empty(), r_alone),
    ensures
        r == r_alone,
{
    assert forall|j: int|
        0 <= j < a.len() implies primary_fold(a).contains_key(key_of(#[trigger] a[j])) by {
        lemma_primary_fold_dom(a, j);
    }
    lemma_fold_b_noop(a, a);
    let m = primary_fold(a);
    assert(merged_fold(a, a) == m);
    assert(merged_fold(a, Seq::<RecordModel>::empty()) == m);
    assert forall|i: int| 0 <= i < r.len() implies valid_record(#[trigger] r[i]) by {
        lemma_primary_fold_values(a, key_of(r[i]));
        let l = choose|l: int| 0 <= l < a.len() && #[trigger] a[l] == m[key_of(r[i])];
        assert(valid_record(a[l]));
    }
    assert forall|i: int| 0 <= i < r_alone.len() implies valid_record(#[trigger] r_alone[i]) by {
        lemma_primary_fold_values(a, key_of(r_alone[i]));
        let l = choose|l: int| 0 <= l < a.len() && #[trigger] a[l] == m[key_of(r_alone[i])];
        assert(valid_record(a[l]));
    }
    lemma_listing_unique(r, r_alone, m);
}

/// Reconciliation is idempotent: merging a reconciled list with itself
/// yields the same list.
pub proof fn lemma_merge_idempotent(a: Seq<RecordModel>, r: Seq<RecordModel>)
    requires
        valid_records(a),
        sorted_records(a),
        unique_keys(a),
        merge_post(a, a, r),
    ensures
        r == a,
{
    lemma_primary_unique(a);
    lemma_fold_b_noop(a, a);
    lemma_valid_listing(r, a, primary_fold(a));
    lemma_listing_unique(r, a, primary_fold(a));
}

/// Merging a reconciled list with an empty secondary set yields the
/// list unchanged.
pub proof fn lemma_merge_empty_secondary(a: Seq<RecordModel>, r: Seq<RecordModel>)
    requires
        valid_records(a),
        sorted_records(a),
        unique_keys(a),
        merge_post(a, Seq::<RecordModel>::empty(), r),
    ensures
        r == a,
{
    lemma_primary_unique(a);
    assert(merged_fold(a, Seq::<RecordModel>::empty()) == primary_fold(a));
    lemma_valid_listing(r, a, primary_fold(a));
    lemma_listing_unique(r, a, primary_fold(a));
}

/// A listing of a map whose records all come from a valid list is
/// itself valid.
proof fn lemma_valid_listing(
    r: Seq<RecordModel>,
    a: Seq<RecordModel>,
    m: Map<(Seq<char>, u16), RecordModel>,
)
    requires
        valid_records(a),
        represents(a, m),
        represents(r, m),
    ensures
        valid_records(r),
{
    assert forall|i: int| 0 <= i < r.len() implies valid_record(#[trigger] r[i]) by {
        let k = key_of(r[i]);
        assert(m.contains_key(k));
        assert(has_key(a, k));
        let l = choose|l: int| 0 <= l < a.len() && key_of(#[trigger] a[l]) == k;
        assert(a[l] == m[k]);
        assert(r[i] == m[k]);
        assert(valid_record(a[l]));
    }
}

/// For a key present in both sources with a known owner on the primary
/// side and an unknown one on the secondary side, the primary record
/// survives the merge.
pub proof fn lemma_merge_prefers_known(
    a: Seq<RecordModel>,
    b: Seq<RecordModel>,
    r: Seq<RecordModel>,
    i: int,
    j: int,
)
    requires
        valid_records(a),
        valid_records(b),
        unique_keys(a),
        merge_post(a, b, r),
        0 <= i < a.len(),
        0 <= j < b.len(),
        key_of(a[i]) == key_of(b[j]),
        a[i].pid > 0,
        b[j].pid == 0,
    ensures
        exists|l: int| 0 <= l < r.len() && #[trigger] r[l] == a[i],
{
    lemma_primary_unique(a);
    let k = key_of(a[i]);
    assert(primary_fold(a).contains_key(k));
    assert(primary_fold(a)[k] == a[i]);
    lemma_fold_b_preserves(a, b, k);
    let m = merged_fold(a, b);
    assert(m.contains_key(k));
    assert(has_key(r, k));
    let l = choose|l: int| 0 <= l < r.len() && key_of(#[trigger] r[l]) == k;
    assert(r[l] == m[k]);
    assert(r[l] == a[i]);
}

// ───────────────────────── the full scan ─────────────────────────

/// The primary record set: the parsed TCP and UDP command outputs, an
/// absent output contributing nothing.
pub open spec fn ss_source_model(
    ss_tcp: Option<Seq<char>>,
    ss_udp: Option<Seq<char>>,
) -> Seq<RecordModel> {
    (match ss_tcp {
        Some(t) => crate::ss_parse::parse_ss_output_model(t, "tcp"@),
        None => Seq::<RecordModel>::empty(),
    }) + (match ss_udp {
        Some(t) => crate::ss_parse::parse_ss_output_model(t, "udp"@),
        None => Seq::<RecordModel>::empty(),
    })
}

/// The secondary record set: the parsed kernel tables, in order.
pub open spec fn kernel_source_model(
    tables: Seq<(Seq<char>, Seq<char>)>,
    m: Map<u64, (u32, Seq<char>)>,
) -> Seq<RecordModel>
    decreases tables.len(),
{
    if tables.len() == 0 {
        Seq::<RecordModel>::empty()
    } else {
        crate::proc_net::proc_file_model(tables[0].0, tables[0].1, m) + kernel_source_model(
            tables.drop_first(),
            m,
        )
    }
}

/// Every record parsed from command-output lines under a known protocol
/// is valid.
proof fn lemma_ss_lines_valid(ls: Seq<Seq<char>>, proto: Seq<char>)
    requires
        proto == "tcp"@ || proto == "udp"@,
    ensures
        valid_records(crate::ss_parse::parse_ss_lines_model(ls, proto)),
    decreases ls.len(),
{
    if ls.len() > 0 {
        lemma_ss_lines_valid(ls.drop_first(), proto);
        let rest = crate::ss_parse::parse_ss_lines_model(ls.drop_first(), proto);
        match crate::ss_parse::parse_ss_line_model(ls[0], proto) {
            Some(r) => {
                assert(valid_record(r)) by {
                    let t = crate::strutil::trim_spec(ls[0]);
                    lemma_extract_port_pos(crate::strutil::split_ws(t));
                }
                let out = crate::ss_parse::parse_ss_lines_model(ls, proto);
                assert(out == seq![r] + rest);
                assert(forall|i: int|
                    0 <= i < out.len() ==> #[trigger] out[i] == if i == 0 {
                        r
                    } else {
                        rest[i - 1]
                    });
            },
            None => {},
        }
    }
}

/// An extracted port is never zero.
proof fn lemma_extract_port_pos(toks: Seq<Seq<char>>)
    ensures
        match crate::ss_parse::extract_addr_port_toks(toks) {
            Some(ap) => ap.1 > 0,
            None => true,
        },
    decreases toks.len(),
{
    if toks.len() > 0 {
        match crate::ss_parse::token_addr_port(toks[0]) {
            Some(ap) => {
                assert(ap.1 > 0);
            },
            None => {
                lemma_extract_port_pos(toks.drop_first());
            },
        }
    }
}

/// Every record parsed from kernel-table rows under a known protocol is
/// valid.
proof fn lemma_proc_lines_valid(
    ls: Seq<Seq<char>>,
    proto: Seq<char>,
    m: Map<u64, (u32, Seq<char>)>,
)
    requires
        proto == "tcp"@ || proto == "udp"@,
    ensures
        valid_records(crate::proc_net::proc_lines_model(ls, proto, m)),
    decreases ls.len(),
{
    if ls.len() > 0 {
        lemma_proc_lines_valid(ls.drop_first(), proto, m);
        let rest = crate::proc_net::proc_lines_model(ls.drop_first(), proto, m);
        match crate::proc_net::proc_line_model(ls[0], proto, m) {
            Some(r) => {
                assert(valid_record(r));
                let out = crate::proc_net::proc_lines_model(ls, proto, m);
                assert(out == seq![r] + rest);
                assert(forall|i: int|
                    0 <= i < out.len() ==> #[trigger] out[i] == if i == 0 {
                        r
                    } else {
                        rest[i - 1]
                    });
            },
            None => {},
        }
    }
}

/// Concatenating valid record sets keeps them valid.
proof fn lemma_valid_concat(x: Seq<RecordModel>, y: Seq<RecordModel>)
    requires
        valid_records(x),
        valid_records(y),
    ensures
        valid_records(x + y),
{
    assert forall|i: int| 0 <= i < (x + y).len() implies valid_record(#[trigger] (x + y)[i]) by {
        if i < x.len() {
            assert((x + y)[i] == x[i]);
        } else {
            assert((x + y)[i] == y[i - x.len()]);
        }
    }
}

/// Scan result: the command outputs parsed as the primary set, the
/// kernel tables parsed as the secondary set, the two merged and
/// sorted.
pub fn scan_open_ports(
    ss_tcp: &Option<String>,
    ss_udp: &Option<String>,
    kernel_tables: &Vec<(String, String)>,
    inode_map: &crate::owners::InodeOwnerMap,
) -> (r: Vec<PortInfo>)
    requires
        forall|i: int|
            0 <= i < kernel_tables@.len() ==> (#[trigger] kernel_tables@[i].1@ == "tcp"@
                || kernel_tables@[i].1@ == "udp"@),
    ensures
        merge_post(
            ss_source_model(ss_tcp.deep_view(), ss_udp.deep_view()),
            kernel_source_model(kernel_tables.deep_view(), inode_map@),
            r.deep_view(),
        ),
        valid_records(r.deep_view()),
{
    let mut a: Vec<PortInfo> = Vec::new();
    match ss_tcp {
        Some(t) => {
            let mut parsed = crate::ss_parse::parse_ss_output(t.as_str(), "tcp");
            a.append(&mut parsed);
        },
        None => {},
    }
    let ghost a_tcp = a.deep_view();
    proof {
        assert(a_tcp =~~= (match ss_tcp.deep_view() {
            Some(t) => crate::ss_parse::parse_ss_output_model(t, "tcp"@),
            None => Seq::<RecordModel>::empty(),
        }));
    }
    match ss_udp {
        Some(t) => {
            let mut parsed = crate::ss_parse::parse_ss_output(t.as_str(), "udp");
            a.append(&mut parsed);
        },
        None => {},
    }
    let ghost adv = a.deep_view();
    proof {
        assert(adv =~~= ss_source_model(ss_tcp.deep_view(), ss_udp.deep_view()));
        assert(valid_records(adv)) by {
            match ss_tcp.deep_view() {
                Some(t) => {
                    lemma_ss_lines_valid(crate::strutil::lines_spec(t), "tcp"@);
                },
                None => {},
            }
            match ss_udp.deep_view() {
                Some(t) => {
                    lemma_ss_lines_valid(crate::strutil::lines_spec(t), "udp"@);
                },
                None => {},
            }
            lemma_valid_concat(
                match ss_tcp.deep_view() {
                    Some(t) => crate::ss_parse::parse_ss_output_model(t, "tcp"@),
                    None => Seq::<RecordModel>::empty(),
                },
                match ss_udp.deep_view() {
                    Some(t) => crate::ss_parse::parse_ss_output_model(t, "udp"@),
                    None => Seq::<RecordModel>::empty(),
                },
            );
        }
    }
    let ghost tdv = kernel_tables.deep_view();
    let mut b: Vec<PortInfo> = Vec::new();
    let nt = kernel_tables.len();
    let mut i: usize = 0;
    proof {
        assert(tdv.skip(0) =~= tdv);
        assert(b.deep_view() + kernel_source_model(tdv, inode_map@) =~= kernel_source_model(
            tdv,
            inode_map@,
        ));
        assert(valid_records(b.deep_view()));
    }
    while i < nt
        invariant
            i <= nt,
            nt == kernel_tables@.len(),
            tdv == kernel_tables.deep_view(),
            tdv.len() == nt,
            forall|l: int|
                0 <= l < nt ==> (#[trigger] kernel_tables@[l].1@ == "tcp"@
                    || kernel_tables@[l].1@ == "udp"@),
            kernel_source_model(tdv, inode_map@) == b.deep_view() + kernel_source_model(
                tdv.skip(i as int),
                inode_map@,
            ),
            valid_records(b.deep_view()),
        decreases nt - i,
    {
        proof {
            assert(tdv[i as int] == (kernel_tables@[i as int].0@, kernel_tables@[i as int].1@));
            assert(tdv.skip(i as int)[0] == tdv[i as int]);
            assert(tdv.skip(i as int).drop_first() =~= tdv.skip(i as int + 1));
        }
        let ghost pre = b.deep_view();
        let entry = &kernel_tables[i];
        let mut parsed = crate::proc_net::parse_proc_net_file(
            entry.0.as_str(),
            entry.1.as_str(),
            inode_map,
        );
        let ghost pdv = parsed.deep_view();
        b.append(&mut parsed);
        proof {
            assert(b.deep_view() =~~= pre + pdv);
            assert(pdv == crate::proc_net::proc_file_model(
                tdv[i as int].0,
                tdv[i as int].1,
                inode_map@,
            ));
            assert(valid_records(pdv)) by {
                let ls = crate::strutil::lines_spec(tdv[i as int].0);
                if ls.len() == 0 {
                } else {
                    lemma_proc_lines_valid(ls.drop_first(), tdv[i as int].1, inode_map@);
                }
            }
            lemma_valid_concat(pre, pdv);
            assert(pre + (pdv + kernel_source_model(tdv.skip(i as int + 1), inode_map@)) =~= (pre
                + pdv) + kernel_source_model(tdv.skip(i as int + 1), inode_map@));
        }
        i = i + 1;
    }
    proof {
        assert(tdv.skip(nt as int).len() == 0);
        assert(b.deep_view() + Seq::<RecordModel>::empty() =~= b.deep_view());
    }
    merge_port_records(&a, &b)
}

/// Executable record ordering test.
fn record_le_exec(x: &PortInfo, y: &PortInfo) -> (r: bool)
    ensures
        r == record_le(x@, y@),
{
    if x.port < y.port {
        true
    } else if x.port == y.port {
        let xu = str_eq(x.protocol.as_str(), "udp");
        let yu = str_eq(y.protocol.as_str(), "udp");
        !xu || yu
    } else {
        false
    }
}

} // verus!
