//! Tag-line parsing and joining.
//!
//! A tag line is a comma-separated list of tokens. Parsing splits on `,`,
//! trims Unicode white space from both ends of each token, and drops
//! tokens that are empty after trimming. Joining writes the tags back separated by
//! `", "`. Parsing a joined line of well-formed tags gives the tags back
//! unchanged, and parsing is idempotent through joining.

use crate::chars::{chars_to_string, str_to_chars};
use vstd::prelude::*;

verus! {

/// Unicode white space: the code points with the `White_Space` property.
pub open spec fn is_ws(c: char) -> bool {
    let u = c as u32;
    ||| u == 0x09
    ||| u == 0x0A
    ||| u == 0x0B
    ||| u == 0x0C
    ||| u == 0x0D
    ||| u == 0x20
    ||| u == 0x85
    ||| u == 0xA0
    ||| u == 0x1680
    ||| (0x2000 <= u && u <= 0x200A)
    ||| u == 0x2028
    ||| u == 0x2029
    ||| u == 0x202F
    ||| u == 0x205F
    ||| u == 0x3000
}

/// `t` holds no comma.
pub open spec fn no_comma(t: Seq<char>) -> bool {
    forall|i: int| 0 <= i < t.len() ==> t[i] != ','
}

/// A tag as parsing produces it: non-empty, comma-free, and trimmed.
pub open spec fn tag_well_formed(t: Seq<char>) -> bool {
    &&& t.len() > 0
    &&& !is_ws(t[0])
    &&& !is_ws(t[t.len() - 1])
    &&& no_comma(t)
}

/// The segments of `s` between commas, in order; always at least one.
pub open spec fn spec_split_commas(s: Seq<char>) -> Seq<Seq<char>>
    decreases s.len(),
{
    if s.len() == 0 {
        seq![Seq::<char>::empty()]
    } else if s[0] == ',' {
        seq![Seq::<char>::empty()] + spec_split_commas(s.drop_first())
    } else {
        let r = spec_split_commas(s.drop_first());
        seq![seq![s[0]] + r[0]] + r.drop_first()
    }
}

/// `s` without leading whitespace.
pub open spec fn spec_trim_front(s: Seq<char>) -> Seq<char>
    decreases s.len(),
{
    if s.len() > 0 && is_ws(s[0]) {
        spec_trim_front(s.drop_first())
    } else {
        s
    }
}

/// `s` without trailing whitespace.
pub open spec fn spec_trim_back(s: Seq<char>) -> Seq<char>
    decreases s.len(),
{
    if s.len() > 0 && is_ws(s[s.len() - 1]) {
        spec_trim_back(s.drop_last())
    } else {
        s
    }
}

/// `s` without leading or trailing whitespace.
pub open spec fn spec_trim(s: Seq<char>) -> Seq<char> {
    spec_trim_back(spec_trim_front(s))
}

/// Each token trimmed, empty ones dropped.
pub open spec fn spec_clean_tokens(ts: Seq<Seq<char>>) -> Seq<Seq<char>>
    decreases ts.len(),
{
    if ts.len() == 0 {
        Seq::empty()
    } else {
        let t = spec_trim(ts[0]);
        let rest = spec_clean_tokens(ts.drop_first());
        if t.len() > 0 {
            seq![t] + rest
        } else {
            rest
        }
    }
}

/// The tags read from a raw tag line.
pub open spec fn spec_parse_tags(s: Seq<char>) -> Seq<Seq<char>> {
    spec_clean_tokens(spec_split_commas(s))
}

/// The tags written back as one line, separated by `", "`.
pub open spec fn spec_join_tags(tags: Seq<Seq<char>>) -> Seq<char>
    decreases tags.len(),
{
    if tags.len() == 0 {
        Seq::empty()
    } else if tags.len() == 1 {
        tags[0]
    } else {
        tags[0] + seq![',', ' '] + spec_join_tags(tags.drop_first())
    }
}

/// The views of a sequence of viewable values, element for element.
pub open spec fn seq_views<T: View>(ts: Seq<T>) -> Seq<T::V> {
    Seq::new(ts.len(), |i: int| ts[i]@)
}

/// Executable whitespace test, equivalent to [`is_ws`].
pub fn is_ws_char(c: char) -> (r: bool)
    ensures
        r == is_ws(c),
{
    let u = c as u32;
    u == 0x09 || u == 0x0A || u == 0x0B || u == 0x0C || u == 0x0D || u == 0x20 || u == 0x85 || u
        == 0xA0 || u == 0x1680 || (0x2000 <= u && u <= 0x200A) || u == 0x2028 || u == 0x2029 || u
        == 0x202F || u == 0x205F || u == 0x3000
}

/// Splitting never yields an empty token list.
pub proof fn lemma_split_commas_len(s: Seq<char>)
    ensures
        spec_split_commas(s).len() >= 1,
    decreases s.len(),
{
    if s.len() > 0 {
        lemma_split_commas_len(s.drop_first());
    }
}

fn split_commas(s: Vec<char>) -> (r: Vec<Vec<char>>)
    ensures
        r@.len() == spec_split_commas(s@).len(),
        forall|k: int| 0 <= k < r@.len() ==> r@[k]@ == spec_split_commas(s@)[k],
    decreases s@.len(),
{
    let ghost s0 = s@;
    let mut s = s;
    if s.len() == 0 {
        let e: Vec<char> = Vec::new();
        let mut r: Vec<Vec<char>> = Vec::new();
        r.push(e);
        r
    } else {
        let c = s.remove(0);
        proof {
            assert(s@ =~= s0.drop_first());
        }
        if c == ',' {
            let mut r = split_commas(s);
            let e: Vec<char> = Vec::new();
            r.insert(0, e);
            proof {
                let sp = spec_split_commas(s0);
                assert(sp == seq![Seq::<char>::empty()] + spec_split_commas(s0.drop_first()));
                assert forall|k: int| 0 <= k < r@.len() implies r@[k]@ == sp[k] by {
                    if k > 0 {
                        assert(r@[k] == r@.subrange(1, r@.len() as int)[k - 1]);
                    }
                }
            }
            r
        } else {
            let mut r = split_commas(s);
            proof {
                lemma_split_commas_len(s0.drop_first());
            }
            let mut first = r.remove(0);
            first.insert(0, c);
            r.insert(0, first);
            proof {
                let rs = spec_split_commas(s0.drop_first());
                let sp = spec_split_commas(s0);
                assert(sp == seq![seq![s0[0]] + rs[0]] + rs.drop_first());
                assert(r@[0]@ =~= seq![s0[0]] + rs[0]);
                assert forall|k: int| 0 <= k < r@.len() implies r@[k]@ == sp[k] by {
                    if k > 0 {
                        assert(r@[k]@ == rs[k]);
                        assert(sp[k] == rs.drop_first()[k - 1]);
                    }
                }
            }
            r
        }
    }
}

fn trim_front_chars(t: Vec<char>) -> (r: Vec<char>)
    ensures
        r@ == spec_trim_front(t@),
    decreases t@.len(),
{
    let ghost t0 = t@;
    let mut t = t;
    if t.len() > 0 && is_ws_char(t[0]) {
        t.remove(0);
        proof {
            assert(t@ =~= t0.drop_first());
        }
        trim_front_chars(t)
    } else {
        t
    }
}

fn trim_back_chars(t: Vec<char>) -> (r: Vec<char>)
    ensures
        r@ == spec_trim_back(t@),
    decreases t@.len(),
{
    let ghost t0 = t@;
    let mut t = t;
    if t.len() > 0 && is_ws_char(t[t.len() - 1]) {
        t.remove(t.len() - 1);
        proof {
            assert(t@ =~= t0.drop_last());
        }
        trim_back_chars(t)
    } else {
        t
    }
}

/// The token with leading and trailing whitespace removed.
fn trim_chars(t: Vec<char>) -> (r: Vec<char>)
    ensures
        r@ == spec_trim(t@),
{
    trim_back_chars(trim_front_chars(t))
}

fn clean_tokens(ts: Vec<Vec<char>>) -> (r: Vec<String>)
    ensures
        r@.len() == spec_clean_tokens(seq_views(ts@)).len(),
        forall|k: int| 0 <= k < r@.len() ==> r@[k]@ == spec_clean_tokens(seq_views(ts@))[k],
    decreases ts@.len(),
{
    let ghost ts0 = ts@;
    let mut ts = ts;
    if ts.len() == 0 {
        let r: Vec<String> = Vec::new();
        proof {
            assert(seq_views(ts0) =~= Seq::<Seq<char>>::empty());
        }
        r
    } else {
        let t0 = ts.remove(0);
        proof {
            assert(seq_views(ts@) =~= seq_views(ts0).drop_first());
        }
        let tr = trim_chars(t0);
        let mut r = clean_tokens(ts);
        let ghost vs = seq_views(ts0);
        proof {
            assert(vs.len() == ts0.len());
            assert(vs[0] == t0@);
        }
        if tr.len() > 0 {
            let s = chars_to_string(&tr);
            r.insert(0, s);
            proof {
                let sp = spec_clean_tokens(vs);
                assert(sp == seq![spec_trim(vs[0])] + spec_clean_tokens(vs.drop_first()));
                assert forall|k: int| 0 <= k < r@.len() implies r@[k]@ == sp[k] by {
                    if k > 0 {
                        assert(r@[k] == r@.subrange(1, r@.len() as int)[k - 1]);
                        assert(sp[k] == spec_clean_tokens(vs.drop_first())[k - 1]);
                    }
                }
            }
            r
        } else {
            proof {
                assert(spec_clean_tokens(vs) == spec_clean_tokens(vs.drop_first()));
            }
            r
        }
    }
}

/// Splits a raw tag line on commas, trims each token, and drops the empty
/// ones. Order and duplicates are kept.
pub fn parse_tags(raw: &str) -> (r: Vec<String>)
    ensures
        r@.len() == spec_parse_tags(raw@).len(),
        forall|k: int| 0 <= k < r@.len() ==> r@[k]@ == spec_parse_tags(raw@)[k],
{
    let cs = str_to_chars(raw);
    let segs = split_commas(cs);
    let r = clean_tokens(segs);
    proof {
        assert(seq_views(segs@) =~= spec_split_commas(raw@));
    }
    r
}

/// The tags joined into one line, separated by `", "`.
pub fn join_tags(tags: &Vec<String>) -> (r: String)
    ensures
        r@ == spec_join_tags(seq_views(tags@)),
{
    let mut out: Vec<char> = Vec::new();
    let mut i: usize = 0;
    let ghost vs = seq_views(tags@);
    while i < tags.len()
        invariant
            i <= tags.len(),
            vs == seq_views(tags@),
            vs.len() == tags@.len(),
            out@ == spec_join_tags(vs.subrange(0, i as int)),
        decreases tags.len() - i,
    {
        if i > 0 {
            out.push(',');
            out.push(' ');
        }
        let t = str_to_chars(tags[i].as_str());
        let mut j: usize = 0;
        while j < t.len()
            invariant
                j <= t@.len(),
                t@ == vs[i as int],
                i < vs.len(),
                i > 0 ==> out@ == spec_join_tags(vs.subrange(0, i as int)) + seq![',', ' ']
                    + t@.subrange(0, j as int),
                i == 0 ==> out@ == t@.subrange(0, j as int),
            decreases t.len() - j,
        {
            out.push(t[j]);
            proof {
                assert(t@.subrange(0, j + 1) =~= t@.subrange(0, j as int).push(t@[j as int]));
            }
            j = j + 1;
        }
        proof {
            assert(t@.subrange(0, t@.len() as int) =~= t@);
            lemma_join_tags_push(vs.subrange(0, i as int), vs[i as int]);
            assert(vs.subrange(0, i as int).push(vs[i as int]) =~= vs.subrange(0, i + 1));
        }
        i = i + 1;
    }
    proof {
        assert(vs.subrange(0, vs.len() as int) =~= vs);
    }
    chars_to_string(&out)
}

/// Joining after appending one tag appends `", "` and the tag, except on an
/// empty list.
proof fn lemma_join_tags_push(tags: Seq<Seq<char>>, t: Seq<char>)
    ensures
        tags.len() == 0 ==> spec_join_tags(tags.push(t)) == t,
        tags.len() > 0 ==> spec_join_tags(tags.push(t)) == spec_join_tags(tags) + seq![',', ' ']
            + t,
    decreases tags.len(),
{
    let p = tags.push(t);
    if tags.len() == 0 {
        assert(p.len() == 1);
        assert(spec_join_tags(p) == p[0]);
    } else {
        lemma_join_tags_push(tags.drop_first(), t);
        assert(p.drop_first() =~= tags.drop_first().push(t));
        if tags.len() == 1 {
            assert(spec_join_tags(p) == p[0] + seq![',', ' '] + spec_join_tags(p.drop_first()));
            assert(spec_join_tags(p.drop_first()) == t);
            assert(spec_join_tags(tags) == tags[0]);
        } else {
            assert(spec_join_tags(p) == p[0] + seq![',', ' '] + spec_join_tags(p.drop_first()));
            assert(spec_join_tags(tags) + seq![',', ' '] + t =~= tags[0] + seq![',', ' '] + (
            spec_join_tags(tags.drop_first()) + seq![',', ' '] + t));
        }
    }
}

proof fn lemma_trim_back_prefix(s: Seq<char>)
    ensures
        spec_trim_back(s).len() <= s.len(),
        forall|i: int| 0 <= i < spec_trim_back(s).len() ==> spec_trim_back(s)[i] == s[i],
    decreases s.len(),
{
    if s.len() > 0 && is_ws(s[s.len() - 1]) {
        lemma_trim_back_prefix(s.drop_last());
        let t = spec_trim_back(s);
        assert forall|i: int| 0 <= i < t.len() implies t[i] == s[i] by {
            assert(t[i] == s.drop_last()[i]);
        }
    }
}

proof fn lemma_trim_front_suffix(s: Seq<char>)
    ensures
        spec_trim_front(s).len() <= s.len(),
        forall|i: int|
            0 <= i < spec_trim_front(s).len() ==> spec_trim_front(s)[i] == s[s.len()
                - spec_trim_front(s).len() + i],
    decreases s.len(),
{
    if s.len() > 0 && is_ws(s[0]) {
        lemma_trim_front_suffix(s.drop_first());
    }
}

proof fn lemma_trim_front_first(s: Seq<char>)
    ensures
        spec_trim_front(s).len() > 0 ==> !is_ws(spec_trim_front(s)[0]),
    decreases s.len(),
{
    if s.len() > 0 && is_ws(s[0]) {
        lemma_trim_front_first(s.drop_first());
    }
}

proof fn lemma_trim_back_last(s: Seq<char>)
    ensures
        spec_trim_back(s).len() > 0 ==> !is_ws(spec_trim_back(s)[spec_trim_back(s).len() - 1]),
    decreases s.len(),
{
    if s.len() > 0 && is_ws(s[s.len() - 1]) {
        lemma_trim_back_last(s.drop_last());
    }
}

/// A comma-free token is well-formed once trimmed, unless trimming leaves
/// nothing.
pub proof fn lemma_trim_well_formed(s: Seq<char>)
    requires
        no_comma(s),
    ensures
        spec_trim(s).len() > 0 ==> tag_well_formed(spec_trim(s)),
{
    let f = spec_trim_front(s);
    let t = spec_trim_back(f);
    lemma_trim_front_suffix(s);
    lemma_trim_front_first(s);
    lemma_trim_back_prefix(f);
    lemma_trim_back_last(f);
    if t.len() > 0 {
        assert forall|i: int| 0 <= i < t.len() implies t[i] != ',' by {
            assert(t[i] == f[i]);
        }
        assert(t[0] == f[0]);
    }
}

proof fn lemma_split_no_comma(s: Seq<char>)
    ensures
        forall|k: int|
            0 <= k < spec_split_commas(s).len() ==> no_comma(#[trigger] spec_split_commas(s)[k]),
    decreases s.len(),
{
    if s.len() > 0 {
        lemma_split_no_comma(s.drop_first());
        let r = spec_split_commas(s.drop_first());
        let sp = spec_split_commas(s);
        if s[0] == ',' {
            assert forall|k: int| 0 <= k < sp.len() implies no_comma(sp[k]) by {
                if k > 0 {
                    assert(sp[k] == r[k - 1]);
                }
            }
        } else {
            assert forall|k: int| 0 <= k < sp.len() implies no_comma(sp[k]) by {
                if k == 0 {
                    let t = seq![s[0]] + r[0];
                    assert(no_comma(r[0]));
                    assert forall|i: int| 0 <= i < t.len() implies t[i] != ',' by {
                        if i > 0 {
                            assert(t[i] == r[0][i - 1]);
                        }
                    }
                } else {
                    assert(sp[k] == r.drop_first()[k - 1]);
                    assert(sp[k] == r[k]);
                }
            }
        }
    }
}

proof fn lemma_clean_tokens_well_formed(ts: Seq<Seq<char>>)
    requires
        forall|k: int| 0 <= k < ts.len() ==> no_comma(#[trigger] ts[k]),
    ensures
        forall|k: int|
            0 <= k < spec_clean_tokens(ts).len() ==> tag_well_formed(
                #[trigger] spec_clean_tokens(ts)[k],
            ),
    decreases ts.len(),
{
    if ts.len() > 0 {
        assert forall|k: int| 0 <= k < ts.drop_first().len() implies no_comma(
            #[trigger] ts.drop_first()[k],
        ) by {
            assert(ts.drop_first()[k] == ts[k + 1]);
        }
        lemma_clean_tokens_well_formed(ts.drop_first());
        lemma_trim_well_formed(ts[0]);
        let t = spec_trim(ts[0]);
        let rest = spec_clean_tokens(ts.drop_first());
        let cl = spec_clean_tokens(ts);
        if t.len() > 0 {
            assert forall|k: int| 0 <= k < cl.len() implies tag_well_formed(cl[k]) by {
                if k > 0 {
                    assert(cl[k] == rest[k - 1]);
                }
            }
        }
    }
}

/// Every tag that parsing yields is non-empty, comma-free, and trimmed.
pub proof fn lemma_parse_tags_well_formed(s: Seq<char>)
    ensures
        forall|k: int|
            0 <= k < spec_parse_tags(s).len() ==> tag_well_formed(#[trigger] spec_parse_tags(s)[k]),
{
    lemma_split_no_comma(s);
    lemma_clean_tokens_well_formed(spec_split_commas(s));
}

proof fn lemma_split_single(s: Seq<char>)
    requires
        no_comma(s),
    ensures
        spec_split_commas(s) == seq![s],
    decreases s.len(),
{
    if s.len() > 0 {
        assert forall|i: int| 0 <= i < s.drop_first().len() implies s.drop_first()[i] != ',' by {
            assert(s.drop_first()[i] == s[i + 1]);
        }
        lemma_split_single(s.drop_first());
        let r = spec_split_commas(s.drop_first());
        assert(seq![s[0]] + r[0] =~= s);
        assert(r.drop_first() =~= Seq::<Seq<char>>::empty());
        assert(spec_split_commas(s) =~= seq![s]);
    } else {
        assert(s =~= Seq::<char>::empty());
        assert(spec_split_commas(s) =~= seq![s]);
    }
}

proof fn lemma_split_cat(a: Seq<char>, b: Seq<char>)
    requires
        no_comma(a),
    ensures
        spec_split_commas(a + seq![','] + b) == seq![a] + spec_split_commas(b),
    decreases a.len(),
{
    let s = a + seq![','] + b;
    if a.len() == 0 {
        assert(s[0] == ',');
        assert(s.drop_first() =~= b);
        assert(a =~= Seq::<char>::empty());
        assert(spec_split_commas(s) =~= seq![a] + spec_split_commas(b));
    } else {
        assert forall|i: int| 0 <= i < a.drop_first().len() implies a.drop_first()[i] != ',' by {
            assert(a.drop_first()[i] == a[i + 1]);
        }
        lemma_split_cat(a.drop_first(), b);
        assert(s[0] == a[0]);
        assert(s.drop_first() =~= a.drop_first() + seq![','] + b);
        let r = spec_split_commas(s.drop_first());
        assert(r[0] == a.drop_first());
        assert(seq![s[0]] + r[0] =~= a);
        assert(r.drop_first() =~= spec_split_commas(b));
        assert(spec_split_commas(s) =~= seq![a] + spec_split_commas(b));
    }
}

/// Trimming a well-formed tag changes nothing.
pub proof fn lemma_trim_well_formed_id(t: Seq<char>)
    requires
        t.len() > 0,
        !is_ws(t[0]),
        !is_ws(t[t.len() - 1]),
    ensures
        spec_trim(t) == t,
{
}

proof fn lemma_trim_space(t: Seq<char>)
    ensures
        spec_trim(seq![' '] + t) == spec_trim(t),
{
    let s = seq![' '] + t;
    assert(is_ws(s[0]));
    assert(s.drop_first() =~= t);
}

/// Parsing a joined line of well-formed tags yields the tags unchanged:
/// the tag line round-trips.
pub proof fn lemma_parse_join_tags(tags: Seq<Seq<char>>)
    requires
        forall|k: int| 0 <= k < tags.len() ==> tag_well_formed(#[trigger] tags[k]),
    ensures
        spec_parse_tags(spec_join_tags(tags)) == tags,
    decreases tags.len(),
{
    if tags.len() == 0 {
        let j = spec_join_tags(tags);
        assert(j == Seq::<char>::empty());
        let sp = spec_split_commas(j);
        assert(sp == seq![Seq::<char>::empty()]);
        assert(spec_trim(sp[0]).len() == 0);
        assert(sp.drop_first() =~= Seq::<Seq<char>>::empty());
        assert(spec_clean_tokens(sp) == spec_clean_tokens(sp.drop_first()));
        assert(spec_parse_tags(spec_join_tags(tags)) =~= tags);
    } else if tags.len() == 1 {
        let t = tags[0];
        let j = spec_join_tags(tags);
        assert(j == t);
        lemma_split_single(t);
        lemma_trim_well_formed_id(t);
        let sp = spec_split_commas(j);
        assert(sp == seq![t]);
        assert(spec_trim(sp[0]) == t);
        assert(sp.drop_first() =~= Seq::<Seq<char>>::empty());
        assert(spec_clean_tokens(sp) == seq![t] + spec_clean_tokens(sp.drop_first()));
        assert(spec_parse_tags(spec_join_tags(tags)) =~= tags);
    } else {
        let t0 = tags[0];
        let rest = tags.drop_first();
        assert forall|k: int| 0 <= k < rest.len() implies tag_well_formed(#[trigger] rest[k]) by {
            assert(rest[k] == tags[k + 1]);
        }
        lemma_parse_join_tags(rest);
        let jr = spec_join_tags(rest);
        assert(spec_join_tags(tags) =~= t0 + seq![','] + (seq![' '] + jr));
        lemma_split_cat(t0, seq![' '] + jr);
        let sp = spec_split_commas(seq![' '] + jr);
        let srest = spec_split_commas(jr);
        assert((seq![' '] + jr)[0] == ' ');
        assert((seq![' '] + jr).drop_first() =~= jr);
        lemma_split_commas_len(jr);
        assert(sp == seq![seq![' '] + srest[0]] + srest.drop_first());
        lemma_trim_well_formed_id(t0);
        let whole = seq![t0] + sp;
        assert(whole.drop_first() =~= sp);
        lemma_trim_space(srest[0]);
        assert(sp[0] == seq![' '] + srest[0]);
        assert(sp.drop_first() =~= srest.drop_first());
        assert(spec_clean_tokens(sp) == spec_clean_tokens(srest));
        assert(spec_clean_tokens(srest) == rest);
        assert(spec_parse_tags(spec_join_tags(tags)) =~= tags);
    }
}

/// Parsing is idempotent through joining: parsing, joining, and parsing
/// again yields the first parse.
pub proof fn lemma_parse_tags_idempotent(s: Seq<char>)
    ensures
        spec_parse_tags(spec_join_tags(spec_parse_tags(s))) == spec_parse_tags(s),
{
    lemma_parse_tags_well_formed(s);
    lemma_parse_join_tags(spec_parse_tags(s));
}

} // verus!
