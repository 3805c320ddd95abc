//! Ordering the list of running processes by name, ignoring case.
use vstd::prelude::*;
use vstd::string::*;

verus! {

/// A running process: its id and its name.
pub struct ProcessInfo {
    pub pid: u32,
    pub name: String,
}

pub open spec fn entries_view(s: Seq<ProcessInfo>) -> Seq<(u32, Seq<char>)> {
    s.map_values(|p: ProcessInfo| (p.pid, p.name@))
}

/// The lowercase form of a text.
pub uninterp spec fn lower_of(s: Seq<char>) -> Seq<char>;

/// Relies on `str::to_lowercase`: the lowercase form depends on the
/// characters alone.
#[verifier::external_body]
fn lowercase(s: &str) -> (r: String)
    ensures
        r@ == lower_of(s@),
{
    s.to_lowercase()
}

/// `a` comes no later than `b` in the order of strings: character by
/// character by code point, a proper prefix first.
pub open spec fn text_le(a: Seq<char>, b: Seq<char>) -> bool
    decreases a.len(),
{
    if a.len() == 0 {
        true
    } else if b.len() == 0 {
        false
    } else if a[0] != b[0] {
        a[0] < b[0]
    } else {
        text_le(a.skip(1), b.skip(1))
    }
}

proof fn lemma_text_le_total(a: Seq<char>, b: Seq<char>)
    ensures
        text_le(a, b) || text_le(b, a),
    decreases a.len(),
{
    if a.len() > 0 && b.len() > 0 && a[0] == b[0] {
        lemma_text_le_total(a.skip(1), b.skip(1));
    }
}

proof fn lemma_text_le_refl(a: Seq<char>)
    ensures
        text_le(a, a),
    decreases a.len(),
{
    if a.len() > 0 {
        lemma_text_le_refl(a.skip(1));
    }
}

proof fn lemma_text_le_trans(a: Seq<char>, b: Seq<char>, c: Seq<char>)
    requires
        text_le(a, b),
        text_le(b, c),
    ensures
        text_le(a, c),
    decreases a.len(),
{
    if a.len() > 0 && b.len() > 0 && c.len() > 0 && a[0] == b[0] && b[0] == c[0] {
        lemma_text_le_trans(a.skip(1), b.skip(1), c.skip(1));
    }
}

fn text_le_exec(a: &str, b: &str) -> (r: bool)
    ensures
        r == text_le(a@, b@),
{
    let na = a.unicode_len();
    let nb = b.unicode_len();
    let mut i: usize = 0;
    assert(a@.skip(0) =~= a@);
    assert(b@.skip(0) =~= b@);
    while i < na && i < nb
        invariant
            na == a@.len(),
            nb == b@.len(),
            i <= na,
            i <= nb,
            text_le(a@, b@) == text_le(a@.skip(i as int), b@.skip(i as int)),
        decreases na - i,
    {
        let ca = a.get_char(i);
        let cb = b.get_char(i);
        assert(a@.skip(i as int)[0] == ca);
        assert(b@.skip(i as int)[0] == cb);
        if ca != cb {
            return ca < cb;
        }
        assert(a@.skip(i as int).skip(1) =~= a@.skip(i + 1));
        assert(b@.skip(i as int).skip(1) =~= b@.skip(i + 1));
        i = i + 1;
    }
    i == na
}

pub open spec fn sorted_by_lower_name(s: Seq<ProcessInfo>) -> bool {
    forall|a: int, b: int|
        0 <= a < b < s.len() ==> text_le(lower_of((#[trigger] s[a]).name@), lower_of((#[trigger] s[b]).name@))
}

/// `idx` sends each position of `r` to a distinct position of `procs` that
/// holds the same entry, and keeps the order of entries whose lowercased
/// names are equal.
pub open spec fn stable_origin(procs: Seq<ProcessInfo>, r: Seq<ProcessInfo>, idx: Seq<int>) -> bool {
    &&& idx.len() == r.len()
    &&& forall|k: int| 0 <= k < r.len() ==> 0 <= #[trigger] idx[k] < procs.len()
        && entries_view(r)[k] == entries_view(procs)[idx[k]]
    &&& forall|a: int, b: int| 0 <= a < b < r.len() ==> #[trigger] idx[a] != #[trigger] idx[b]
    &&& forall|a: int, b: int|
        0 <= a < b < r.len() && lower_of((#[trigger] r[a]).name@) == lower_of((#[trigger] r[b]).name@)
            ==> idx[a] < idx[b]
}

/// The same processes, ordered by their lowercased names; processes whose
/// lowercased names are equal keep their order.
pub fn sort_by_folded_name(procs: Vec<ProcessInfo>) -> (r: Vec<ProcessInfo>)
    ensures
        entries_view(r@).to_multiset() == entries_view(procs@).to_multiset(),
        sorted_by_lower_name(r@),
        exists|idx: Seq<int>| stable_origin(procs@, r@, idx),
{
    broadcast use vstd::seq_lib::group_to_multiset_ensures;

    let mut out: Vec<ProcessInfo> = Vec::new();
    let mut keys: Vec<String> = Vec::new();
    let mut i: usize = 0;
    let ghost mut idx: Seq<int> = Seq::empty();
    while i < procs.len()
        invariant
            i <= procs@.len(),
            stable_origin(procs@, out@, idx),
            forall|k: int| 0 <= k < idx.len() ==> #[trigger] idx[k] < i,
            keys@.len() == out@.len(),
            forall|k: int| 0 <= k < out@.len() ==> (#[trigger] keys@[k])@ == lower_of(out@[k].name@),
            entries_view(out@).to_multiset() == entries_view(procs@.take(i as int)).to_multiset(),
            sorted_by_lower_name(out@),
        decreases procs@.len() - i,
    {
        let entry = ProcessInfo { pid: procs[i].pid, name: procs[i].name.clone() };
        let key = lowercase(procs[i].name.as_str());
        let mut pos: usize = 0;
        while pos < keys.len() && text_le_exec(keys[pos].as_str(), key.as_str())
            invariant
                pos <= keys@.len(),
                keys@.len() == out@.len(),
                forall|k: int| 0 <= k < out@.len() ==> (#[trigger] keys@[k])@ == lower_of(out@[k].name@),
                forall|k: int| 0 <= k < pos ==> text_le(lower_of((#[trigger] out@[k]).name@), key@),
            decreases keys@.len() - pos,
        {
            pos = pos + 1;
        }
        let ghost old_out = out@;
        let ghost old_idx = idx;
        proof {
            if pos < out@.len() {
                lemma_text_le_total(keys@[pos as int]@, key@);
                assert forall|m: int| pos <= m < old_out.len() implies lower_of((#[trigger] old_out[m]).name@) != key@ by {
                    if lower_of(old_out[m].name@) == key@ {
                        lemma_text_le_refl(key@);
                        if m > pos {
                            lemma_text_le_trans(lower_of(old_out[pos as int].name@), lower_of(old_out[m].name@), key@);
                        }
                    }
                }
                assert forall|m: int| pos <= m < old_out.len() implies text_le(key@, lower_of((#[trigger] old_out[m]).name@)) by {
                    if m > pos {
                        lemma_text_le_trans(key@, lower_of(old_out[pos as int].name@), lower_of(old_out[m].name@));
                    }
                }
            }
        }
        out.insert(pos, entry);
        keys.insert(pos, key);
        proof {
            idx = old_idx.insert(pos as int, i as int);
            let n = out@;
            assert forall|k: int| 0 <= k < n.len() implies 0 <= #[trigger] idx[k] < procs@.len()
                && entries_view(n)[k] == entries_view(procs@)[idx[k]] by {
                if k > pos {
                    assert(n[k] == old_out[k - 1] && idx[k] == old_idx[k - 1]);
                } else if k < pos {
                    assert(n[k] == old_out[k] && idx[k] == old_idx[k]);
                }
            }
            assert forall|a: int, b: int| 0 <= a < b < n.len() && lower_of((#[trigger] n[a]).name@) == lower_of((#[trigger] n[b]).name@)
                implies idx[a] < idx[b] by {
                if b < pos {
                    assert(n[a] == old_out[a] && n[b] == old_out[b]);
                } else if b == pos {
                    assert(n[a] == old_out[a]);
                } else if a == pos {
                    assert(n[b] == old_out[b - 1]);
                } else if a < pos {
                    assert(n[a] == old_out[a] && n[b] == old_out[b - 1]);
                } else {
                    assert(n[a] == old_out[a - 1] && n[b] == old_out[b - 1]);
                }
            }
            assert forall|a: int, b: int| 0 <= a < b < n.len() implies #[trigger] idx[a] != #[trigger] idx[b] by {
                if b < pos {
                } else if b == pos {
                    assert(idx[a] == old_idx[a]);
                } else if a == pos {
                    assert(idx[b] == old_idx[b - 1]);
                } else if a < pos {
                    assert(idx[a] == old_idx[a] && idx[b] == old_idx[b - 1]);
                } else {
                    assert(idx[a] == old_idx[a - 1] && idx[b] == old_idx[b - 1]);
                }
            }
            assert forall|a: int, b: int| 0 <= a < b < n.len() implies text_le(lower_of((#[trigger] n[a]).name@), lower_of((#[trigger] n[b]).name@)) by {
                if b < pos {
                    assert(n[a] == old_out[a] && n[b] == old_out[b]);
                } else if b == pos {
                    assert(n[a] == old_out[a]);
                } else if a == pos {
                    assert(n[b] == old_out[b - 1]);
                } else if a < pos {
                    assert(n[a] == old_out[a] && n[b] == old_out[b - 1]);
                    lemma_text_le_trans(lower_of(n[a].name@), key@, lower_of(n[b].name@));
                } else {
                    assert(n[a] == old_out[a - 1] && n[b] == old_out[b - 1]);
                }
            }
            let v = (procs@[i as int].pid, procs@[i as int].name@);
            assert(entries_view(n) =~= entries_view(old_out).insert(pos as int, v));
            assert(entries_view(procs@.take(i + 1)) =~= entries_view(procs@.take(i as int)).insert(i as int, v));
            vstd::seq_lib::to_multiset_insert(entries_view(old_out), pos as int, v);
            vstd::seq_lib::to_multiset_insert(entries_view(procs@.take(i as int)), i as int, v);
        }
        i = i + 1;
    }
    assert(procs@.take(i as int) =~= procs@);
    assert(stable_origin(procs@, out@, idx));
    out
}

} // verus!
