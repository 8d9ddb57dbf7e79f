//! The order of the entries of a directory of a rom's file system: by name,
//! upper case and lower case letters alike.
use vstd::prelude::*;
use crate::nds_tree::SourceTreeNode;
use crate::text::chars_of;

verus! {

broadcast use vstd::seq_lib::group_to_multiset_ensures;

/// `a` comes before `b` in the order of std's `cmp` on strings: at the first
/// character where they differ the smaller one wins, and a proper prefix
/// comes first.
pub open spec fn text_lt(a: Seq<char>, b: Seq<char>) -> bool
    decreases a.len(),
{
    if b.len() == 0 {
        false
    } else if a.len() == 0 {
        true
    } else if a[0] != b[0] {
        (a[0] as u32) < (b[0] as u32)
    } else {
        text_lt(a.drop_first(), b.drop_first())
    }
}

/// A character with ASCII lower-case letters made upper case.
pub open spec fn upper_char(c: char) -> char {
    if 'a' <= c <= 'z' {
        ((c as u32) - 32) as char
    } else {
        c
    }
}

/// A name with ASCII lower-case letters made upper case.
pub open spec fn upper_key(s: Seq<char>) -> Seq<char> {
    s.map_values(|c: char| upper_char(c))
}

/// The key by which a node is ordered.
pub open spec fn node_key(n: SourceTreeNode) -> Seq<char> {
    upper_key(n.name@)
}

/// Nodes in order of their keys; nodes with equal keys may come in any order.
pub open spec fn nodes_sorted(s: Seq<SourceTreeNode>) -> bool {
    forall|i: int, j: int| 0 <= i < j < s.len() ==> !text_lt(node_key(#[trigger] s[j]), node_key(#[trigger] s[i]))
}

pub proof fn lemma_text_lt_asym(a: Seq<char>, b: Seq<char>)
    ensures
        text_lt(a, b) ==> !text_lt(b, a),
    decreases a.len(),
{
    if a.len() > 0 && b.len() > 0 && a[0] == b[0] {
        lemma_text_lt_asym(a.drop_first(), b.drop_first());
    }
}

pub proof fn lemma_text_lt_trans(a: Seq<char>, b: Seq<char>, c: Seq<char>)
    requires
        text_lt(a, b),
        text_lt(b, c),
    ensures
        text_lt(a, c),
    decreases a.len(),
{
    if a.len() > 0 && a[0] == b[0] && b[0] == c[0] {
        lemma_text_lt_trans(a.drop_first(), b.drop_first(), c.drop_first());
    }
}

pub proof fn lemma_text_lt_total(a: Seq<char>, b: Seq<char>)
    ensures
        a == b || text_lt(a, b) || text_lt(b, a),
    decreases a.len(),
{
    if a.len() == 0 && b.len() == 0 {
        assert(a =~= b);
    } else if a.len() > 0 && b.len() > 0 && a[0] == b[0] {
        lemma_text_lt_total(a.drop_first(), b.drop_first());
        if a.drop_first() == b.drop_first() {
            assert(a =~= seq![a[0]] + a.drop_first());
            assert(b =~= seq![b[0]] + b.drop_first());
        }
    } else if a.len() > 0 && b.len() > 0 {
        vstd::utf8::char_u32_cast(a[0], a[0] as u32);
        vstd::utf8::char_u32_cast(b[0], b[0] as u32);
        assert((a[0] as u32) != (b[0] as u32));
    }
}

/// Whether `a` comes before `b`.
fn chars_lt(a: &[char], b: &[char]) -> (r: bool)
    ensures
        r == text_lt(a@, b@),
{
    let mut i: usize = 0;
    assert(a@.subrange(0, a@.len() as int) =~= a@);
    assert(b@.subrange(0, b@.len() as int) =~= b@);
    while i < a.len() && i < b.len() && a[i] == b[i]
        invariant
            i <= a@.len(),
            i <= b@.len(),
            text_lt(a@, b@) == text_lt(a@.subrange(i as int, a@.len() as int), b@.subrange(i as int, b@.len() as int)),
        decreases a@.len() - i,
    {
        let ghost sa = a@.subrange(i as int, a@.len() as int);
        let ghost sb = b@.subrange(i as int, b@.len() as int);
        assert(sa.drop_first() =~= a@.subrange(i + 1, a@.len() as int));
        assert(sb.drop_first() =~= b@.subrange(i + 1, b@.len() as int));
        i = i + 1;
    }
    let ghost sa = a@.subrange(i as int, a@.len() as int);
    let ghost sb = b@.subrange(i as int, b@.len() as int);
    if i == b.len() {
        false
    } else if i == a.len() {
        true
    } else {
        assert(sa[0] == a@[i as int] && sb[0] == b@[i as int]);
        (a[i] as u32) < (b[i] as u32)
    }
}

/// The key of a name.
fn upper_chars(s: &str) -> (r: Vec<char>)
    ensures
        r@ == upper_key(s@),
{
    let cs = chars_of(s);
    let mut r: Vec<char> = Vec::new();
    let mut i: usize = 0;
    while i < cs.len()
        invariant
            i <= cs@.len(),
            cs@ == s@,
            r@ == upper_key(cs@.subrange(0, i as int)),
        decreases cs@.len() - i,
    {
        let c = cs[i];
        let u = if 'a' <= c && c <= 'z' {
            ((c as u8) - 32) as char
        } else {
            c
        };
        r.push(u);
        i = i + 1;
        assert(r@ =~= upper_key(cs@.subrange(0, i as int)));
    }
    assert(cs@.subrange(0, cs@.len() as int) =~= cs@);
    r
}

/// The nodes in order of their names, upper case and lower case letters
/// alike, as `sort_unstable_by` with that comparison leaves them.
pub fn sort_nodes(nodes: Vec<SourceTreeNode>) -> (r: Vec<SourceTreeNode>)
    ensures
        r@.to_multiset() == nodes@.to_multiset(),
        nodes_sorted(r@),
{
    let mut rest = nodes;
    let mut out: Vec<SourceTreeNode> = Vec::new();
    let mut keys: Vec<Vec<char>> = Vec::new();
    while rest.len() > 0
        invariant
            out@.to_multiset().add(rest@.to_multiset()) == nodes@.to_multiset(),
            nodes_sorted(out@),
            keys@.len() == out@.len(),
            forall|k: int| 0 <= k < keys@.len() ==> (#[trigger] keys@[k])@ == node_key(out@[k]),
        decreases rest@.len(),
    {
        let ghost before = rest@;
        let x = rest.pop().unwrap();
        assert(before =~= rest@.push(x));
        let kx = upper_chars(x.name.as_str());
        let mut p: usize = 0;
        while p < out.len() && !chars_lt(kx.as_slice(), keys[p].as_slice())
            invariant
                p <= out@.len(),
                keys@.len() == out@.len(),
                forall|k: int| 0 <= k < keys@.len() ==> (#[trigger] keys@[k])@ == node_key(out@[k]),
                forall|k: int| 0 <= k < p ==> !text_lt(kx@, node_key(#[trigger] out@[k])),
            decreases out@.len() - p,
        {
            p = p + 1;
        }
        proof {
            assert forall|j: int| p <= j < out@.len() implies !text_lt(node_key(#[trigger] out@[j]), kx@) by {
                let kp = node_key(out@[p as int]);
                let kj = node_key(out@[j]);
                assert(text_lt(kx@, kp));
                if j > p {
                    assert(!text_lt(kj, kp));
                    lemma_text_lt_total(kj, kp);
                    if kj != kp {
                        lemma_text_lt_trans(kx@, kp, kj);
                    }
                }
                lemma_text_lt_asym(kx@, kj);
            }
        }
        let ghost old_out = out@;
        out.insert(p, x);
        keys.insert(p, kx);
        assert(out@ == old_out.insert(p as int, x));
        assert forall|i: int, j: int| 0 <= i < j < out@.len() implies !text_lt(node_key(#[trigger] out@[j]), node_key(#[trigger] out@[i])) by {
            if i < p && j < p {
                assert(out@[i] == old_out[i] && out@[j] == old_out[j]);
            } else if i < p && j == p {
                assert(out@[i] == old_out[i]);
            } else if i < p && j > p {
                assert(out@[i] == old_out[i] && out@[j] == old_out[j - 1]);
            } else if i == p {
                assert(out@[j] == old_out[j - 1]);
            } else {
                assert(out@[i] == old_out[i - 1] && out@[j] == old_out[j - 1]);
            }
        }
        assert forall|k: int| 0 <= k < keys@.len() implies (#[trigger] keys@[k])@ == node_key(out@[k]) by {
            if k < p {
            } else if k == p {
            } else {
            }
        }
    }
    assert(rest@ =~= Seq::<SourceTreeNode>::empty());
    out
}

} // verus!
