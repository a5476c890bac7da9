//! Reading split nodes out of the text dump of a boosted tree model. A split
//! line reads `0:[f2<1.5] yes=1,no=2,missing=1,gain=3.2,cover=40`: the
//! feature name stands between `[` and `<`, and comma-separated `key=value`
//! pairs follow the space.
use vstd::prelude::*;
use vstd::string::StringSliceAdditionalSpecFns;

use crate::text::{
    copy_range, lemma_filter_extend, lines_of, occurs_at, parsed_as, parses, split_bytes, split_on,
    views,
};

verus! {

/// Where the scan of a line stands after some of its bytes.
pub struct ScanState {
    /// The bytes seen inside `[...<` so far.
    pub name: Seq<u8>,
    /// The name as it stood at the last space.
    pub node_name: Seq<u8>,
    pub in_name: bool,
    pub in_map: bool,
    pub in_key: bool,
    pub key: Seq<u8>,
    pub val: Seq<u8>,
    /// The `key=value` pairs closed by a comma so far.
    pub pairs: Seq<(Seq<u8>, Seq<u8>)>,
}

pub open spec fn scan_start() -> ScanState {
    ScanState {
        name: Seq::empty(),
        node_name: Seq::empty(),
        in_name: false,
        in_map: false,
        in_key: false,
        key: Seq::empty(),
        val: Seq::empty(),
        pairs: Seq::empty(),
    }
}

/// One byte of the scan: a space opens the pairs and fixes the name, `[`
/// and `<` open and close the name, `=` turns from key to value and `,`
/// closes a pair; any other byte extends whatever is open.
pub open spec fn scan_step(st: ScanState, c: u8) -> ScanState {
    if c == 32 {
        ScanState { in_map: true, in_key: true, node_name: st.name, ..st }
    } else if c == 91 {
        ScanState { in_name: true, ..st }
    } else if c == 60 {
        ScanState { in_name: false, ..st }
    } else if c == 61 {
        ScanState { in_key: false, ..st }
    } else if c == 44 {
        ScanState {
            in_key: true,
            pairs: st.pairs.push((st.key, st.val)),
            key: Seq::empty(),
            val: Seq::empty(),
            ..st
        }
    } else if st.in_name {
        ScanState { name: st.name.push(c), ..st }
    } else if st.in_map && st.in_key {
        ScanState { key: st.key.push(c), ..st }
    } else if st.in_map {
        ScanState { val: st.val.push(c), ..st }
    } else {
        st
    }
}

pub open spec fn scan(line: Seq<u8>) -> ScanState
    decreases line.len(),
{
    if line.len() == 0 {
        scan_start()
    } else {
        scan_step(scan(line.drop_last()), line.last())
    }
}

/// The pairs of a line: those closed by commas, then the one left open at
/// the end.
pub open spec fn node_pairs(line: Seq<u8>) -> Seq<(Seq<u8>, Seq<u8>)> {
    scan(line).pairs.push((scan(line).key, scan(line).val))
}

/// The index of the last pair with key `key`, if any.
pub open spec fn last_with_key(pairs: Seq<(Seq<u8>, Seq<u8>)>, key: Seq<u8>) -> Option<int>
    decreases pairs.len(),
{
    if pairs.len() == 0 {
        None
    } else if pairs.last().0 == key {
        Some(pairs.len() - 1)
    } else {
        last_with_key(pairs.drop_last(), key)
    }
}

pub open spec fn gain_key() -> Seq<u8> {
    seq![103u8, 97u8, 105u8, 110u8]
}

pub open spec fn cover_key() -> Seq<u8> {
    seq![99u8, 111u8, 118u8, 101u8, 114u8]
}

pub open spec fn leaf_word() -> Seq<u8> {
    seq![108u8, 101u8, 97u8, 102u8]
}

/// A split node: its feature name and the values of its last `gain` and
/// `cover` pairs, where it has them.
#[derive(Debug)]
pub struct DumpNode<F> {
    pub name: Vec<u8>,
    pub gain: Option<F>,
    pub cover: Option<F>,
}

/// Whether the value of pair `key`, where there is one, may be `out`.
pub open spec fn keyed_value_as<F, E, P: Fn(&[u8]) -> Result<F, E>>(
    parse: P,
    pairs: Seq<(Seq<u8>, Seq<u8>)>,
    key: Seq<u8>,
    out: Option<F>,
) -> bool {
    match last_with_key(pairs, key) {
        Some(j) => out matches Some(x) && parsed_as(parse, pairs[j].1, Ok(x)),
        None => out is None,
    }
}

/// Whether `node` may be what the parser makes of `line`.
pub open spec fn node_parsed_as<F, E, P: Fn(&[u8]) -> Result<F, E>>(
    parse: P,
    line: Seq<u8>,
    node: DumpNode<F>,
) -> bool {
    &&& node.name@ == scan(line).node_name
    &&& forall|j: int|
        0 <= j < node_pairs(line).len() ==> #[trigger] parses(parse, node_pairs(line)[j].1)
    &&& keyed_value_as(parse, node_pairs(line), gain_key(), node.gain)
    &&& keyed_value_as(parse, node_pairs(line), cover_key(), node.cover)
}

/// Whether some pair of `line` may make the parser fail with `e`, every
/// pair before it parsing.
pub open spec fn node_fails_with<F, E, P: Fn(&[u8]) -> Result<F, E>>(
    parse: P,
    line: Seq<u8>,
    e: E,
) -> bool {
    exists|j: int|
        0 <= j < node_pairs(line).len() && parsed_as(parse, node_pairs(line)[j].1, Err(e))
            && forall|t: int| 0 <= t < j ==> #[trigger] parses(parse, node_pairs(line)[t].1)
}

pub open spec fn pair_views(p: Seq<(Vec<u8>, Vec<u8>)>) -> Seq<(Seq<u8>, Seq<u8>)> {
    p.map_values(|x: (Vec<u8>, Vec<u8>)| (x.0@, x.1@))
}

/// Scans a line into its feature name and its `key=value` pairs.
fn scan_line(line: &[u8]) -> (r: (Vec<u8>, Vec<(Vec<u8>, Vec<u8>)>))
    ensures
        r.0@ == scan(line@).node_name,
        pair_views(r.1@) == node_pairs(line@),
{
    let mut name: Vec<u8> = Vec::new();
    let mut node_name: Vec<u8> = Vec::new();
    let mut in_name = false;
    let mut in_map = false;
    let mut in_key = false;
    let mut key: Vec<u8> = Vec::new();
    let mut val: Vec<u8> = Vec::new();
    let mut pairs: Vec<(Vec<u8>, Vec<u8>)> = Vec::new();
    let mut i: usize = 0;
    assert(line@.take(0) =~= Seq::<u8>::empty());
    assert(pair_views(pairs@) =~= Seq::<(Seq<u8>, Seq<u8>)>::empty());
    while i < line.len()
        invariant
            i <= line@.len(),
            scan(line@.take(i as int)) == (ScanState {
                name: name@,
                node_name: node_name@,
                in_name,
                in_map,
                in_key,
                key: key@,
                val: val@,
                pairs: pair_views(pairs@),
            }),
        decreases line@.len() - i,
    {
        assert(line@.take(i + 1).drop_last() =~= line@.take(i as int));
        let c = line[i];
        let ghost old_pairs = pairs@;
        if c == 32 {
            in_map = true;
            in_key = true;
            node_name = copy_range(name.as_slice(), 0, name.len());
            assert(node_name@ =~= name@);
        } else if c == 91 {
            in_name = true;
        } else if c == 60 {
            in_name = false;
        } else if c == 61 {
            in_key = false;
        } else if c == 44 {
            in_key = true;
            let mut k: Vec<u8> = Vec::new();
            let mut v: Vec<u8> = Vec::new();
            std::mem::swap(&mut key, &mut k);
            std::mem::swap(&mut val, &mut v);
            let ghost kv = (k@, v@);
            pairs.push((k, v));
            assert(pair_views(pairs@) =~= pair_views(old_pairs).push(kv));
            assert(key@ =~= Seq::<u8>::empty());
            assert(val@ =~= Seq::<u8>::empty());
        } else if in_name {
            name.push(c);
        } else if in_map && in_key {
            key.push(c);
        } else if in_map {
            val.push(c);
        }
        i = i + 1;
    }
    assert(line@.take(i as int) =~= line@);
    let ghost closed = pairs@;
    let ghost kv = (key@, val@);
    pairs.push((key, val));
    assert(pair_views(pairs@) =~= pair_views(closed).push(kv));
    (node_name, pairs)
}

/// Parses the value of every pair of a split line in order, keeping the
/// last `gain` and the last `cover`.
pub fn parse_node<F, E, P: Fn(&[u8]) -> Result<F, E>>(node_str: &[u8], parse: &P) -> (r: Result<
    DumpNode<F>,
    E,
>)
    requires
        forall|b: &[u8]| parse.requires((b,)),
    ensures
        match r {
            Ok(node) => node_parsed_as(*parse, node_str@, node),
            Err(e) => node_fails_with(*parse, node_str@, e),
        },
{
    let (name, pairs) = scan_line(node_str);
    let ghost ps = node_pairs(node_str@);
    let gk: Vec<u8> = vec![103u8, 97u8, 105u8, 110u8];
    let ck: Vec<u8> = vec![99u8, 111u8, 118u8, 101u8, 114u8];
    assert(gk@ =~= gain_key());
    assert(ck@ =~= cover_key());
    let mut gain: Option<F> = None;
    let mut cover: Option<F> = None;
    let mut i: usize = 0;
    while i < pairs.len()
        invariant
            forall|b: &[u8]| parse.requires((b,)),
            ps == pair_views(pairs@),
            ps == node_pairs(node_str@),
            ps.len() == pairs@.len(),
            gk@ == gain_key(),
            ck@ == cover_key(),
            i <= pairs@.len(),
            forall|j: int| 0 <= j < i ==> #[trigger] parses(*parse, ps[j].1),
            keyed_value_as(*parse, ps.take(i as int), gain_key(), gain),
            keyed_value_as(*parse, ps.take(i as int), cover_key(), cover),
        decreases pairs@.len() - i,
    {
        let ghost pre = ps.take(i as int);
        let ghost post = ps.take(i + 1);
        assert(post.drop_last() =~= pre);
        assert(post.last() == ps[i as int]);
        assert(ps[i as int] == (pairs@[i as int].0@, pairs@[i as int].1@));
        let is_gain = same_bytes(pairs[i].0.as_slice(), gk.as_slice());
        let is_cover = same_bytes(pairs[i].0.as_slice(), ck.as_slice());
        let res = parse(pairs[i].1.as_slice());
        match res {
            Ok(x) => {
                assert(parsed_as(*parse, ps[i as int].1, Ok(x)));
                assert(parses(*parse, ps[i as int].1));
                proof {
                    lemma_last_key_step(pre, post, gain_key());
                    lemma_last_key_step(pre, post, cover_key());
                }
                if is_gain {
                    gain = Some(x);
                } else if is_cover {
                    cover = Some(x);
                }
                proof {
                    assert(gain_key() != cover_key()) by {
                        assert(gain_key().len() != cover_key().len());
                    }
                    if let Some(j) = last_with_key(pre, gain_key()) {
                        assert(post[j] == pre[j]);
                    }
                    if let Some(j) = last_with_key(pre, cover_key()) {
                        assert(post[j] == pre[j]);
                    }
                }
            },
            Err(e) => {
                assert(parsed_as(*parse, ps[i as int].1, Err(e)));
                let ghost np = node_pairs(node_str@);
                assert(np == ps);
                assert(forall|t: int| 0 <= t < i ==> #[trigger] parses(*parse, np[t].1));
                assert(0 <= i < np.len() && parsed_as(*parse, np[i as int].1, Err(e)));
                assert(node_fails_with(*parse, node_str@, e));
                return Err(e);
            },
        }
        i = i + 1;
    }
    assert(ps.take(i as int) =~= ps);
    Ok(DumpNode { name, gain, cover })
}

proof fn lemma_last_key_step(
    pre: Seq<(Seq<u8>, Seq<u8>)>,
    post: Seq<(Seq<u8>, Seq<u8>)>,
    key: Seq<u8>,
)
    requires
        post.len() == pre.len() + 1,
        post.drop_last() == pre,
    ensures
        last_with_key(post, key) == if post.last().0 == key {
            Some(pre.len() as int)
        } else {
            last_with_key(pre, key)
        },
        forall|j: int| 0 <= j < pre.len() ==> post[j] == pre[j],
        last_with_key(pre, key) matches Some(j) ==> 0 <= j < pre.len() && pre[j].0 == key,
{
    assert forall|j: int| 0 <= j < pre.len() implies post[j] == pre[j] by {
        assert(post.drop_last()[j] == post[j]);
    }
    lemma_last_key_in_range(pre, key);
}

proof fn lemma_last_key_in_range(pairs: Seq<(Seq<u8>, Seq<u8>)>, key: Seq<u8>)
    ensures
        last_with_key(pairs, key) matches Some(j) ==> 0 <= j < pairs.len() && pairs[j].0 == key,
    decreases pairs.len(),
{
    if pairs.len() > 0 && pairs.last().0 != key {
        lemma_last_key_in_range(pairs.drop_last(), key);
        if let Some(j) = last_with_key(pairs.drop_last(), key) {
            assert(pairs.drop_last()[j] == pairs[j]);
        }
    }
}

/// Whether two byte strings are equal.
fn same_bytes(a: &[u8], b: &[u8]) -> (r: bool)
    ensures
        r == (a@ == b@),
{
    if a.len() != b.len() {
        return false;
    }
    let r = occurs_at(a, b, 0);
    assert(a@.subrange(0, b@.len() as int) =~= a@);
    r
}

} // verus!

verus! {

/// Whether `w` occurs somewhere in `s`.
pub open spec fn contains_word(s: Seq<u8>, w: Seq<u8>) -> bool {
    exists|i: int| 0 <= i && i + w.len() <= s.len() && #[trigger] s.subrange(i, i + w.len()) == w
}

/// Lines that hold a split node: they do not mention `leaf` and hold exactly
/// one space.
pub open spec fn is_split_line() -> spec_fn(Seq<u8>) -> bool {
    |l: Seq<u8>| !contains_word(l, leaf_word()) && split_on(l, seq![32u8]).len() == 2
}

fn contains_bytes(s: &[u8], w: &[u8]) -> (r: bool)
    ensures
        r == contains_word(s@, w@),
{
    let n = s.len();
    let m = w.len();
    if m == 0 {
        assert(s@.subrange(0, 0 + w@.len() as int) =~= w@);
        return true;
    }
    let mut i: usize = 0;
    while m <= n - i
        invariant
            n == s@.len(),
            m == w@.len(),
            m > 0,
            i <= n,
            forall|t: int| 0 <= t < i && t + m <= n ==> #[trigger] s@.subrange(t, t + m) != w@,
        decreases n - i,
    {
        if occurs_at(s, w, i) {
            return true;
        }
        i = i + 1;
    }
    assert forall|t: int| 0 <= t && t + m <= n implies #[trigger] s@.subrange(t, t + m) != w@ by {
    }
    false
}

/// The split nodes of a model's text dump, in order, each parsed as
/// `parse_node` does; the first value that does not parse ends the work.
pub fn dump_nodes<F, E, P: Fn(&[u8]) -> Result<F, E>>(model_dump: &str, parse: P) -> (r: Result<
    Vec<DumpNode<F>>,
    E,
>)
    requires
        forall|b: &[u8]| parse.requires((b,)),
    ensures
        ({
            let splits = lines_of(model_dump.spec_bytes()).filter(is_split_line());
            match r {
                Ok(v) => v@.len() == splits.len() && forall|k: int|
                    0 <= k < v@.len() ==> node_parsed_as(parse, splits[k], #[trigger] v@[k]),
                Err(e) => exists|k: int|
                    0 <= k < splits.len() && node_fails_with(parse, #[trigger] splits[k], e),
            }
        }),
{
    let nl: Vec<u8> = vec![10u8];
    let sp: Vec<u8> = vec![32u8];
    let leaf: Vec<u8> = vec![108u8, 101u8, 97u8, 102u8];
    let lines = split_bytes(model_dump.as_bytes(), nl.as_slice());
    let ghost ls = views(lines@);
    proof {
        assert(nl@ =~= seq![10u8]);
        assert(sp@ =~= seq![32u8]);
        assert(leaf@ =~= leaf_word());
        assert forall|k: int| 0 <= k < lines@.len() implies lines@[k]@ == #[trigger] ls[k] by {}
    }
    let mut out: Vec<DumpNode<F>> = Vec::new();
    let mut i: usize = 0;
    while i < lines.len()
        invariant
            ls == views(lines@),
            ls == lines_of(model_dump.spec_bytes()),
            ls.len() == lines@.len(),
            forall|k: int| 0 <= k < lines@.len() ==> lines@[k]@ == #[trigger] ls[k],
            sp@ == seq![32u8],
            leaf@ == leaf_word(),
            forall|b: &[u8]| parse.requires((b,)),
            i <= lines@.len(),
            out@.len() == ls.subrange(0, i as int).filter(is_split_line()).len(),
            forall|k: int|
                0 <= k < out@.len() ==> node_parsed_as(
                    parse,
                    ls.subrange(0, i as int).filter(is_split_line())[k],
                    #[trigger] out@[k],
                ),
        decreases lines@.len() - i,
    {
        proof {
            lemma_filter_extend(ls, 0, i as int, is_split_line());
        }
        let line = lines[i].as_slice();
        let has_leaf = contains_bytes(line, leaf.as_slice());
        if !has_leaf {
            let parts = split_bytes(line, sp.as_slice());
            assert(views(parts@).len() == parts@.len());
            if parts.len() == 2 {
                match parse_node(line, &parse) {
                    Ok(node) => {
                        out.push(node);
                    },
                    Err(e) => {
                        proof {
                            lemma_in_filter(ls, i as int, is_split_line());
                        }
                        return Err(e);
                    },
                }
            }
        }
        i = i + 1;
    }
    assert(ls.subrange(0, i as int) =~= ls);
    Ok(out)
}

/// An element that the predicate keeps is in the filtered sequence.
proof fn lemma_in_filter(l: Seq<Seq<u8>>, i: int, p: spec_fn(Seq<u8>) -> bool)
    requires
        0 <= i < l.len(),
        p(l[i]),
    ensures
        exists|k: int| 0 <= k < l.filter(p).len() && #[trigger] l.filter(p)[k] == l[i],
{
    broadcast use vstd::seq_lib::group_filter_ensures;

    assert(l.filter(p).contains(l[i]));
}

} // verus!
