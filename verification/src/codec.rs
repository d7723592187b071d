//! The persistence codec: the note collection as JSON text.
//!
//! The collection is stored as a JSON array of note objects, each with the
//! fields `title`, `content`, `created_at`, `updated_at` (ISO-8601 UTC
//! timestamps) and `tags` (an array of strings). The encoder emits a
//! canonical form with no inter-token whitespace; decoding an encoded
//! collection yields the collection unchanged, field for field. The
//! decoder also reads the standard short string escapes and subsecond
//! fractions of one to nine digits, so compact JSON written by other
//! tools for the same fields loads as well.

use crate::chars::{chars_to_string, str_to_chars};
use crate::note::{Note, NoteView};
use crate::tags::seq_views;
use crate::timestamp::Timestamp;
use vstd::prelude::*;

verus! {

/// The decimal digit character for `d`.
pub open spec fn dig(d: int) -> char {
    if d == 0 {
        '0'
    } else if d == 1 {
        '1'
    } else if d == 2 {
        '2'
    } else if d == 3 {
        '3'
    } else if d == 4 {
        '4'
    } else if d == 5 {
        '5'
    } else if d == 6 {
        '6'
    } else if d == 7 {
        '7'
    } else if d == 8 {
        '8'
    } else {
        '9'
    }
}

/// The lowercase hexadecimal digit character for `d`.
pub open spec fn hexdig(d: int) -> char {
    if d < 10 {
        dig(d)
    } else if d == 10 {
        'a'
    } else if d == 11 {
        'b'
    } else if d == 12 {
        'c'
    } else if d == 13 {
        'd'
    } else if d == 14 {
        'e'
    } else {
        'f'
    }
}

/// `n` as two decimal digits, zero-padded.
pub open spec fn num2(n: int) -> Seq<char> {
    seq![dig(n / 10 % 10), dig(n % 10)]
}

/// `n` as four decimal digits, zero-padded.
pub open spec fn num4(n: int) -> Seq<char> {
    seq![dig(n / 1000 % 10), dig(n / 100 % 10), dig(n / 10 % 10), dig(n % 10)]
}

/// `n` as nine decimal digits, zero-padded.
pub open spec fn num9(n: int) -> Seq<char> {
    seq![
        dig(n / 100000000 % 10),
        dig(n / 10000000 % 10),
        dig(n / 1000000 % 10),
        dig(n / 100000 % 10),
        dig(n / 10000 % 10),
        dig(n / 1000 % 10),
        dig(n / 100 % 10),
        dig(n / 10 % 10),
        dig(n % 10),
    ]
}

/// A timestamp in ISO-8601 form with a `Z` offset; the nanosecond fraction
/// appears, nine digits wide, only when it is non-zero.
pub open spec fn enc_ts(t: Timestamp) -> Seq<char> {
    num4(t.year as int) + seq!['-'] + num2(t.month as int) + seq!['-'] + num2(t.day as int)
        + seq!['T'] + num2(t.hour as int) + seq![':'] + num2(t.minute as int) + seq![':'] + num2(
        t.second as int,
    ) + (if t.nanos == 0 {
        Seq::<char>::empty()
    } else {
        seq!['.'] + num9(t.nanos as int)
    }) + seq!['Z']
}

/// The JSON escape of one character: quotes and backslashes get a
/// backslash, control characters a `\u00..` form, everything else stands
/// as itself.
pub open spec fn esc1(c: char) -> Seq<char> {
    if c == '"' {
        seq!['\\', '"']
    } else if c == '\\' {
        seq!['\\', '\\']
    } else if (c as u32) < 32 {
        seq!['\\', 'u', '0', '0', hexdig(((c as u32) as int) / 16), hexdig(((c as u32) as int) % 16)]
    } else {
        seq![c]
    }
}

/// The JSON escape of a whole string body.
pub open spec fn esc(s: Seq<char>) -> Seq<char>
    decreases s.len(),
{
    if s.len() == 0 {
        Seq::empty()
    } else {
        esc1(s[0]) + esc(s.drop_first())
    }
}

/// A JSON string: the escaped body between quotes.
pub open spec fn enc_str(s: Seq<char>) -> Seq<char> {
    seq!['"'] + esc(s) + seq!['"']
}

/// A timestamp as a JSON string.
pub open spec fn enc_ts_str(t: Timestamp) -> Seq<char> {
    seq!['"'] + enc_ts(t) + seq!['"']
}

/// The tag strings separated by commas.
pub open spec fn enc_tags(tags: Seq<Seq<char>>) -> Seq<char>
    decreases tags.len(),
{
    if tags.len() == 0 {
        Seq::empty()
    } else if tags.len() == 1 {
        enc_str(tags[0])
    } else {
        enc_str(tags[0]) + seq![','] + enc_tags(tags.drop_first())
    }
}

pub open spec fn lit_title() -> Seq<char> {
    seq!['{', '"', 't', 'i', 't', 'l', 'e', '"', ':']
}

pub open spec fn lit_content() -> Seq<char> {
    seq![',', '"', 'c', 'o', 'n', 't', 'e', 'n', 't', '"', ':']
}

pub open spec fn lit_created() -> Seq<char> {
    seq![',', '"', 'c', 'r', 'e', 'a', 't', 'e', 'd', '_', 'a', 't', '"', ':']
}

pub open spec fn lit_updated() -> Seq<char> {
    seq![',', '"', 'u', 'p', 'd', 'a', 't', 'e', 'd', '_', 'a', 't', '"', ':']
}

pub open spec fn lit_tags() -> Seq<char> {
    seq![',', '"', 't', 'a', 'g', 's', '"', ':', '[']
}

pub open spec fn lit_close() -> Seq<char> {
    seq![']', '}']
}

/// One note as a JSON object, fields in declaration order.
#[verifier::opaque]
pub open spec fn enc_note(n: NoteView) -> Seq<char> {
    lit_title() + enc_str(n.title) + lit_content() + enc_str(n.content) + lit_created()
        + enc_ts_str(n.created_at) + lit_updated() + enc_ts_str(n.updated_at) + lit_tags()
        + enc_tags(n.tags) + lit_close()
}

/// The note objects separated by commas.
pub open spec fn enc_note_list(ns: Seq<NoteView>) -> Seq<char>
    decreases ns.len(),
{
    if ns.len() == 0 {
        Seq::empty()
    } else if ns.len() == 1 {
        enc_note(ns[0])
    } else {
        enc_note(ns[0]) + seq![','] + enc_note_list(ns.drop_first())
    }
}

/// The whole collection as a JSON array.
pub open spec fn spec_encode_notes(ns: Seq<NoteView>) -> Seq<char> {
    seq!['['] + enc_note_list(ns) + seq![']']
}

/// Escaping distributes over concatenation.
pub proof fn lemma_esc_append(a: Seq<char>, b: Seq<char>)
    ensures
        esc(a + b) == esc(a) + esc(b),
    decreases a.len(),
{
    if a.len() == 0 {
        assert(a + b =~= b);
        assert(esc(a) + esc(b) =~= esc(b));
    } else {
        assert((a + b).drop_first() =~= a.drop_first() + b);
        lemma_esc_append(a.drop_first(), b);
        assert((a + b).len() > 0);
        assert((a + b)[0] == a[0]);
        assert(esc(a + b) == esc1(a[0]) + (esc(a.drop_first()) + esc(b)));
        assert(esc1(a[0]) + (esc(a.drop_first()) + esc(b)) =~= (esc1(a[0]) + esc(a.drop_first()))
            + esc(b));
    }
}

proof fn lemma_esc_single(c: char)
    ensures
        esc(seq![c]) == esc1(c),
{
    reveal_with_fuel(esc, 2);
    assert(seq![c].drop_first() =~= Seq::<char>::empty());
    assert(esc(seq![c]) =~= esc1(c));
}

/// Encoding one more tag appends a comma (except to an empty list) and the
/// tag's string.
proof fn lemma_enc_tags_push(tags: Seq<Seq<char>>, t: Seq<char>)
    ensures
        tags.len() == 0 ==> enc_tags(tags.push(t)) == enc_str(t),
        tags.len() > 0 ==> enc_tags(tags.push(t)) == enc_tags(tags) + seq![','] + enc_str(t),
    decreases tags.len(),
{
    let p = tags.push(t);
    if tags.len() == 0 {
        assert(p.len() == 1);
        assert(enc_tags(p) == enc_str(p[0]));
    } else {
        lemma_enc_tags_push(tags.drop_first(), t);
        assert(p.drop_first() =~= tags.drop_first().push(t));
        if tags.len() == 1 {
            assert(enc_tags(p) == enc_str(p[0]) + seq![','] + enc_tags(p.drop_first()));
            assert(enc_tags(tags) == enc_str(tags[0]));
        } else {
            assert(enc_tags(p) == enc_str(p[0]) + seq![','] + enc_tags(p.drop_first()));
            assert(enc_tags(tags) + seq![','] + enc_str(t) =~= enc_str(tags[0]) + seq![','] + (
            enc_tags(tags.drop_first()) + seq![','] + enc_str(t)));
        }
    }
}

/// Encoding one more note appends a comma (except to an empty list) and the
/// note's object.
proof fn lemma_enc_note_list_push(ns: Seq<NoteView>, n: NoteView)
    ensures
        ns.len() == 0 ==> enc_note_list(ns.push(n)) == enc_note(n),
        ns.len() > 0 ==> enc_note_list(ns.push(n)) == enc_note_list(ns) + seq![','] + enc_note(n),
    decreases ns.len(),
{
    let p = ns.push(n);
    if ns.len() == 0 {
        assert(p.len() == 1);
        assert(enc_note_list(p) == enc_note(p[0]));
    } else {
        lemma_enc_note_list_push(ns.drop_first(), n);
        assert(p.drop_first() =~= ns.drop_first().push(n));
        if ns.len() == 1 {
            assert(enc_note_list(p) == enc_note(p[0]) + seq![','] + enc_note_list(p.drop_first()));
            assert(enc_note_list(ns) == enc_note(ns[0]));
        } else {
            assert(enc_note_list(p) == enc_note(p[0]) + seq![','] + enc_note_list(p.drop_first()));
            assert(enc_note_list(ns) + seq![','] + enc_note(n) =~= enc_note(ns[0]) + seq![','] + (
            enc_note_list(ns.drop_first()) + seq![','] + enc_note(n)));
        }
    }
}

fn digit_char(d: u32) -> (c: char)
    requires
        d < 10,
    ensures
        c == dig(d as int),
{
    if d == 0 {
        '0'
    } else if d == 1 {
        '1'
    } else if d == 2 {
        '2'
    } else if d == 3 {
        '3'
    } else if d == 4 {
        '4'
    } else if d == 5 {
        '5'
    } else if d == 6 {
        '6'
    } else if d == 7 {
        '7'
    } else if d == 8 {
        '8'
    } else {
        '9'
    }
}

fn hexdigit_char(d: u32) -> (c: char)
    requires
        d < 16,
    ensures
        c == hexdig(d as int),
{
    if d < 10 {
        digit_char(d)
    } else if d == 10 {
        'a'
    } else if d == 11 {
        'b'
    } else if d == 12 {
        'c'
    } else if d == 13 {
        'd'
    } else if d == 14 {
        'e'
    } else {
        'f'
    }
}

fn push_num2(out: &mut Vec<char>, n: u32)
    requires
        n < 100,
    ensures
        final(out)@ == old(out)@ + num2(n as int),
{
    out.push(digit_char(n / 10));
    out.push(digit_char(n % 10));
    proof {
        assert(n / 10 < 10);
        assert((n / 10) as int == n as int / 10);
        assert(n as int / 10 % 10 == n as int / 10);
        assert(final(out)@ =~= old(out)@ + num2(n as int));
    }
}

fn push_num4(out: &mut Vec<char>, n: u32)
    requires
        n < 10000,
    ensures
        final(out)@ == old(out)@ + num4(n as int),
{
    out.push(digit_char(n / 1000));
    out.push(digit_char(n / 100 % 10));
    out.push(digit_char(n / 10 % 10));
    out.push(digit_char(n % 10));
    proof {
        assert(n / 1000 < 10);
        assert((n / 1000) as int == n as int / 1000);
        assert(n as int / 1000 % 10 == n as int / 1000);
        assert(final(out)@ =~= old(out)@ + num4(n as int));
    }
}

fn push_num9(out: &mut Vec<char>, n: u32)
    requires
        n < 1000000000,
    ensures
        final(out)@ == old(out)@ + num9(n as int),
{
    out.push(digit_char(n / 100000000));
    out.push(digit_char(n / 10000000 % 10));
    out.push(digit_char(n / 1000000 % 10));
    out.push(digit_char(n / 100000 % 10));
    out.push(digit_char(n / 10000 % 10));
    out.push(digit_char(n / 1000 % 10));
    out.push(digit_char(n / 100 % 10));
    out.push(digit_char(n / 10 % 10));
    out.push(digit_char(n % 10));
    proof {
        assert(n / 100000000 < 10);
        assert((n / 100000000) as int == n as int / 100000000);
        assert(n as int / 100000000 % 10 == n as int / 100000000);
        assert(final(out)@ =~= old(out)@ + num9(n as int));
    }
}

fn push_ts(out: &mut Vec<char>, t: &Timestamp)
    requires
        t.well_formed(),
    ensures
        final(out)@ == old(out)@ + enc_ts(*t),
{
    push_num4(out, t.year);
    out.push('-');
    push_num2(out, t.month);
    out.push('-');
    push_num2(out, t.day);
    out.push('T');
    push_num2(out, t.hour);
    out.push(':');
    push_num2(out, t.minute);
    out.push(':');
    push_num2(out, t.second);
    if t.nanos != 0 {
        out.push('.');
        push_num9(out, t.nanos);
    }
    out.push('Z');
    proof {
        assert(final(out)@ =~= old(out)@ + enc_ts(*t));
    }
}

fn push_escaped(out: &mut Vec<char>, s: &Vec<char>)
    ensures
        final(out)@ == old(out)@ + esc(s@),
{
    let ghost base = old(out)@;
    let mut i: usize = 0;
    while i < s.len()
        invariant
            i <= s@.len(),
            out@ == base + esc(s@.subrange(0, i as int)),
        decreases s@.len() - i,
    {
        let ghost prefix = s@.subrange(0, i as int);
        let c = s[i];
        if c == '"' {
            out.push('\\');
            out.push('"');
        } else if c == '\\' {
            out.push('\\');
            out.push('\\');
        } else {
            let u = c as u32;
            if u < 32 {
                out.push('\\');
                out.push('u');
                out.push('0');
                out.push('0');
                out.push(hexdigit_char(u / 16));
                out.push(hexdigit_char(u % 16));
            } else {
                out.push(c);
            }
        }
        proof {
            let u = c as u32;
            assert((u / 16) as int == ((c as u32) as int) / 16);
            assert((u % 16) as int == ((c as u32) as int) % 16);
            lemma_esc_append(prefix, seq![c]);
            lemma_esc_single(c);
            assert(out@ =~= base + esc(prefix) + esc1(c));
            assert(s@.subrange(0, i + 1) =~= prefix + seq![c]);
            assert(out@ =~= base + esc(s@.subrange(0, i + 1)));
        }
        i = i + 1;
    }
    proof {
        assert(s@.subrange(0, s@.len() as int) =~= s@);
    }
}

fn push_json_string(out: &mut Vec<char>, s: &str)
    ensures
        final(out)@ == old(out)@ + enc_str(s@),
{
    let cs = str_to_chars(s);
    out.push('"');
    push_escaped(out, &cs);
    out.push('"');
    proof {
        assert(final(out)@ =~= old(out)@ + enc_str(s@));
    }
}

fn push_ts_string(out: &mut Vec<char>, t: &Timestamp)
    requires
        t.well_formed(),
    ensures
        final(out)@ == old(out)@ + enc_ts_str(*t),
{
    out.push('"');
    push_ts(out, t);
    out.push('"');
    proof {
        assert(final(out)@ =~= old(out)@ + enc_ts_str(*t));
    }
}

fn push_tags_list(out: &mut Vec<char>, tags: &Vec<String>)
    ensures
        final(out)@ == old(out)@ + enc_tags(seq_views(tags@)),
{
    let ghost base = old(out)@;
    let ghost vs = seq_views(tags@);
    let mut i: usize = 0;
    while i < tags.len()
        invariant
            i <= tags@.len(),
            vs == seq_views(tags@),
            vs.len() == tags@.len(),
            out@ == base + enc_tags(vs.subrange(0, i as int)),
        decreases tags@.len() - i,
    {
        if i > 0 {
            out.push(',');
        }
        push_json_string(out, tags[i].as_str());
        proof {
            lemma_enc_tags_push(vs.subrange(0, i as int), vs[i as int]);
            assert(vs.subrange(0, i as int).push(vs[i as int]) =~= vs.subrange(0, i + 1));
            assert(out@ =~= base + enc_tags(vs.subrange(0, i + 1)));
        }
        i = i + 1;
    }
    proof {
        assert(vs.subrange(0, vs.len() as int) =~= vs);
    }
}

fn push_lit_title(out: &mut Vec<char>)
    ensures
        final(out)@ == old(out)@ + lit_title(),
{
    out.push('{');
    out.push('"');
    out.push('t');
    out.push('i');
    out.push('t');
    out.push('l');
    out.push('e');
    out.push('"');
    out.push(':');
    proof {
        assert(final(out)@ =~= old(out)@ + lit_title());
    }
}

fn push_lit_content(out: &mut Vec<char>)
    ensures
        final(out)@ == old(out)@ + lit_content(),
{
    out.push(',');
    out.push('"');
    out.push('c');
    out.push('o');
    out.push('n');
    out.push('t');
    out.push('e');
    out.push('n');
    out.push('t');
    out.push('"');
    out.push(':');
    proof {
        assert(final(out)@ =~= old(out)@ + lit_content());
    }
}

fn push_lit_created(out: &mut Vec<char>)
    ensures
        final(out)@ == old(out)@ + lit_created(),
{
    out.push(',');
    out.push('"');
    out.push('c');
    out.push('r');
    out.push('e');
    out.push('a');
    out.push('t');
    out.push('e');
    out.push('d');
    out.push('_');
    out.push('a');
    out.push('t');
    out.push('"');
    out.push(':');
    proof {
        assert(final(out)@ =~= old(out)@ + lit_created());
    }
}

fn push_lit_updated(out: &mut Vec<char>)
    ensures
        final(out)@ == old(out)@ + lit_updated(),
{
    out.push(',');
    out.push('"');
    out.push('u');
    out.push('p');
    out.push('d');
    out.push('a');
    out.push('t');
    out.push('e');
    out.push('d');
    out.push('_');
    out.push('a');
    out.push('t');
    out.push('"');
    out.push(':');
    proof {
        assert(final(out)@ =~= old(out)@ + lit_updated());
    }
}

fn push_lit_tags(out: &mut Vec<char>)
    ensures
        final(out)@ == old(out)@ + lit_tags(),
{
    out.push(',');
    out.push('"');
    out.push('t');
    out.push('a');
    out.push('g');
    out.push('s');
    out.push('"');
    out.push(':');
    out.push('[');
    proof {
        assert(final(out)@ =~= old(out)@ + lit_tags());
    }
}

fn push_lit_close(out: &mut Vec<char>)
    ensures
        final(out)@ == old(out)@ + lit_close(),
{
    out.push(']');
    out.push('}');
    proof {
        assert(final(out)@ =~= old(out)@ + lit_close());
    }
}

#[verifier::rlimit(100)]
fn push_note(out: &mut Vec<char>, n: &Note)
    requires
        n@.well_formed(),
    ensures
        final(out)@ == old(out)@ + enc_note(n@),
{
    push_lit_title(out);
    push_json_string(out, n.title.as_str());
    push_lit_content(out);
    push_json_string(out, n.content.as_str());
    push_lit_created(out);
    push_ts_string(out, &n.created_at);
    push_lit_updated(out);
    push_ts_string(out, &n.updated_at);
    push_lit_tags(out);
    push_tags_list(out, &n.tags);
    push_lit_close(out);
    proof {
        reveal(enc_note);
        assert(final(out)@ =~= old(out)@ + enc_note(n@));
    }
}

/// The whole collection encoded as one JSON array.
#[verifier::rlimit(100)]
pub fn encode_notes(notes: &Vec<Note>) -> (r: String)
    requires
        forall|i: int| 0 <= i < notes@.len() ==> (#[trigger] notes@[i])@.well_formed(),
    ensures
        r@ == spec_encode_notes(seq_views(notes@)),
{
    let ghost vs = seq_views(notes@);
    let mut out: Vec<char> = Vec::new();
    out.push('[');
    let mut i: usize = 0;
    while i < notes.len()
        invariant
            i <= notes@.len(),
            vs == seq_views(notes@),
            vs.len() == notes@.len(),
            forall|k: int| 0 <= k < notes@.len() ==> (#[trigger] notes@[k])@.well_formed(),
            out@ == seq!['['] + enc_note_list(vs.subrange(0, i as int)),
        decreases notes@.len() - i,
    {
        if i > 0 {
            out.push(',');
        }
        push_note(&mut out, &notes[i]);
        proof {
            lemma_enc_note_list_push(vs.subrange(0, i as int), vs[i as int]);
            assert(vs.subrange(0, i as int).push(vs[i as int]) =~= vs.subrange(0, i + 1));
            assert(out@ =~= seq!['['] + enc_note_list(vs.subrange(0, i + 1)));
        }
        i = i + 1;
    }
    out.push(']');
    proof {
        assert(vs.subrange(0, vs.len() as int) =~= vs);
        assert(out@ =~= spec_encode_notes(vs));
    }
    chars_to_string(&out)
}

/// The decimal value of a digit character, by its code point.
pub open spec fn dig_val(c: char) -> int {
    ((c as u32) as int) - 48
}

/// `c` is a decimal digit.
pub open spec fn is_digit(c: char) -> bool {
    48 <= (c as u32) <= 57
}

/// `c` is a lowercase hexadecimal digit.
pub open spec fn is_hex(c: char) -> bool {
    is_digit(c) || (97 <= (c as u32) <= 102)
}

/// The value of a lowercase hexadecimal digit character.
pub open spec fn hex_val(c: char) -> int {
    if is_digit(c) {
        dig_val(c)
    } else {
        ((c as u32) as int) - 87
    }
}

/// One expected character; the position after it on success.
pub open spec fn p_char(s: Seq<char>, i: int, c: char) -> Option<int> {
    if 0 <= i < s.len() && s[i] == c {
        Some(i + 1)
    } else {
        None
    }
}

/// One expected literal; the position after it on success.
pub open spec fn p_lit(s: Seq<char>, i: int, lit: Seq<char>) -> Option<int> {
    if 0 <= i && i + lit.len() <= s.len() && s.subrange(i, i + lit.len()) == lit {
        Some(i + lit.len())
    } else {
        None
    }
}

/// Two decimal digits and their value.
pub open spec fn p_num2(s: Seq<char>, i: int) -> Option<(int, int)> {
    if 0 <= i && i + 2 <= s.len() && is_digit(s[i]) && is_digit(s[i + 1]) {
        Some((10 * dig_val(s[i]) + dig_val(s[i + 1]), i + 2))
    } else {
        None
    }
}

/// Four decimal digits and their value.
pub open spec fn p_num4(s: Seq<char>, i: int) -> Option<(int, int)> {
    if 0 <= i && i + 4 <= s.len() && is_digit(s[i]) && is_digit(s[i + 1]) && is_digit(s[i + 2])
        && is_digit(s[i + 3]) {
        Some(
            (
                1000 * dig_val(s[i]) + 100 * dig_val(s[i + 1]) + 10 * dig_val(s[i + 2]) + dig_val(
                    s[i + 3],
                ),
                i + 4,
            ),
        )
    } else {
        None
    }
}

/// The length of the digit run starting at `i`, counted up to `cap`.
pub open spec fn digit_run(s: Seq<char>, i: int, cap: int) -> int
    decreases cap,
{
    if cap <= 0 {
        0
    } else if 0 <= i < s.len() && is_digit(s[i]) {
        1 + digit_run(s, i + 1, cap - 1)
    } else {
        0
    }
}

/// The value of the `l` digits starting at `i`.
pub open spec fn digits_val(s: Seq<char>, i: int, l: int) -> int
    decreases l,
{
    if l <= 0 {
        0
    } else {
        digits_val(s, i, l - 1) * 10 + dig_val(s[i + l - 1])
    }
}

/// Ten to the power `k`, for small non-negative `k`.
pub open spec fn pow10(k: int) -> int
    decreases k,
{
    if k <= 0 {
        1
    } else {
        10 * pow10(k - 1)
    }
}

/// A subsecond fraction of one to nine digits, scaled to nanoseconds;
/// a run of ten or more digits is rejected.
pub open spec fn p_frac(s: Seq<char>, i: int) -> Option<(int, int)> {
    let l = digit_run(s, i, 10);
    if 1 <= l <= 9 {
        Some((digits_val(s, i, l) * pow10(9 - l), i + l))
    } else {
        None
    }
}

/// A timestamp in the stored ISO-8601 form; the parsed value must be
/// well-formed.
#[verifier::opaque]
pub open spec fn p_ts(s: Seq<char>, i: int) -> Option<(Timestamp, int)> {
    match p_num4(s, i) {
        None => None,
        Some((y, i1)) => match p_char(s, i1, '-') {
            None => None,
            Some(i2) => match p_num2(s, i2) {
                None => None,
                Some((mo, i3)) => match p_char(s, i3, '-') {
                    None => None,
                    Some(i4) => match p_num2(s, i4) {
                        None => None,
                        Some((d, i5)) => match p_char(s, i5, 'T') {
                            None => None,
                            Some(i6) => match p_num2(s, i6) {
                                None => None,
                                Some((h, i7)) => match p_char(s, i7, ':') {
                                    None => None,
                                    Some(i8) => match p_num2(s, i8) {
                                        None => None,
                                        Some((mi, i9)) => match p_char(s, i9, ':') {
                                            None => None,
                                            Some(i10) => match p_num2(s, i10) {
                                                None => None,
                                                Some((se, i11)) => p_ts_end(
                                                    s,
                                                    i11,
                                                    y,
                                                    mo,
                                                    d,
                                                    h,
                                                    mi,
                                                    se,
                                                ),
                                            },
                                        },
                                    },
                                },
                            },
                        },
                    },
                },
            },
        },
    }
}

/// The optional nanosecond fraction, the `Z`, and the assembled timestamp.
pub open spec fn p_ts_end(
    s: Seq<char>,
    i: int,
    y: int,
    mo: int,
    d: int,
    h: int,
    mi: int,
    se: int,
) -> Option<(Timestamp, int)> {
    let (na, j) = if i < s.len() && s[i] == '.' {
        match p_frac(s, i + 1) {
            None => (-1, i),
            Some((na, j)) => (na, j),
        }
    } else {
        (0, i)
    };
    if na >= 0 {
        match p_char(s, j, 'Z') {
            None => None,
            Some(j1) => {
                let t = Timestamp {
                    year: y as u32,
                    month: mo as u32,
                    day: d as u32,
                    hour: h as u32,
                    minute: mi as u32,
                    second: se as u32,
                    nanos: na as u32,
                };
                if t.well_formed() {
                    Some((t, j1))
                } else {
                    None
                }
            },
        }
    } else {
        None
    }
}

/// Prepends a character to a parse result.
pub open spec fn p_cons(c: char, r: Option<(Seq<char>, int)>) -> Option<(Seq<char>, int)> {
    match r {
        None => None,
        Some((t, j)) => Some((seq![c] + t, j)),
    }
}

/// The body of a JSON string up to and through its closing quote,
/// unescaping as it goes. Besides the `\"`, `\\` and low `\u00..` forms
/// the encoder writes, the standard short escapes `\/`, `\n`, `\t`,
/// `\r`, `\b` and `\f` are read. Raw control characters and unknown
/// escapes are rejected.
pub open spec fn p_str_body(s: Seq<char>, i: int) -> Option<(Seq<char>, int)>
    decreases s.len() - i,
    when 0 <= i <= s.len()
{
    if i == s.len() {
        None
    } else if s[i] == '"' {
        Some((Seq::empty(), i + 1))
    } else if s[i] == '\\' {
        if i + 1 == s.len() {
            None
        } else if s[i + 1] == '"' {
            p_cons('"', p_str_body(s, i + 2))
        } else if s[i + 1] == '\\' {
            p_cons('\\', p_str_body(s, i + 2))
        } else if s[i + 1] == '/' {
            p_cons('/', p_str_body(s, i + 2))
        } else if s[i + 1] == 'n' {
            p_cons('\n', p_str_body(s, i + 2))
        } else if s[i + 1] == 't' {
            p_cons('\t', p_str_body(s, i + 2))
        } else if s[i + 1] == 'r' {
            p_cons('\r', p_str_body(s, i + 2))
        } else if s[i + 1] == 'b' {
            p_cons('\u{8}', p_str_body(s, i + 2))
        } else if s[i + 1] == 'f' {
            p_cons('\u{c}', p_str_body(s, i + 2))
        } else if s[i + 1] == 'u' {
            if i + 6 <= s.len() && s[i + 2] == '0' && s[i + 3] == '0' && is_hex(s[i + 4]) && is_hex(
                s[i + 5],
            ) && 16 * hex_val(s[i + 4]) + hex_val(s[i + 5]) < 32 {
                p_cons(
                    ((16 * hex_val(s[i + 4]) + hex_val(s[i + 5])) as u32) as char,
                    p_str_body(s, i + 6),
                )
            } else {
                None
            }
        } else {
            None
        }
    } else if (s[i] as u32) < 32 {
        None
    } else {
        p_cons(s[i], p_str_body(s, i + 1))
    }
}

/// A JSON string including both quotes.
pub open spec fn p_string(s: Seq<char>, i: int) -> Option<(Seq<char>, int)> {
    if 0 <= i < s.len() && s[i] == '"' {
        p_str_body(s, i + 1)
    } else {
        None
    }
}

/// A timestamp between quotes.
pub open spec fn p_ts_quoted(s: Seq<char>, i: int) -> Option<(Timestamp, int)> {
    match p_char(s, i, '"') {
        None => None,
        Some(i1) => match p_ts(s, i1) {
            None => None,
            Some((t, j)) => match p_char(s, j, '"') {
                None => None,
                Some(j1) => Some((t, j1)),
            },
        },
    }
}

/// A successful string parse moves the position forward, at most to the
/// end.
pub proof fn lemma_p_str_body_pos(s: Seq<char>, i: int)
    requires
        0 <= i <= s.len(),
    ensures
        p_str_body(s, i) is Some ==> i < (p_str_body(s, i)->Some_0).1 <= s.len(),
    decreases s.len() - i,
{
    if i < s.len() {
        if s[i] == '\\' && i + 1 < s.len() {
            if s[i + 1] == '"' || s[i + 1] == '\\' || s[i + 1] == '/' || s[i + 1] == 'n' || s[i
                + 1] == 't' || s[i + 1] == 'r' || s[i + 1] == 'b' || s[i + 1] == 'f' {
                lemma_p_str_body_pos(s, i + 2);
            } else if s[i + 1] == 'u' && i + 6 <= s.len() {
                lemma_p_str_body_pos(s, i + 6);
            }
        } else if s[i] != '"' && s[i] != '\\' {
            lemma_p_str_body_pos(s, i + 1);
        }
    }
}

pub proof fn lemma_p_string_pos(s: Seq<char>, i: int)
    ensures
        p_string(s, i) is Some ==> i + 2 <= (p_string(s, i)->Some_0).1 <= s.len(),
{
    if 0 <= i < s.len() && s[i] == '"' {
        lemma_p_str_body_pos(s, i + 1);
    }
}

/// The tag array after its opening bracket, through the closing bracket.
pub open spec fn p_tags_arr(s: Seq<char>, i: int) -> Option<(Seq<Seq<char>>, int)>
    decreases s.len() - i,
    when 0 <= i <= s.len()
    via p_tags_arr_dec
{
    if i < s.len() && s[i] == ']' {
        Some((Seq::empty(), i + 1))
    } else {
        match p_string(s, i) {
            None => None,
            Some((t, j)) => {
                if j < s.len() && s[j] == ',' {
                    match p_tags_arr(s, j + 1) {
                        None => None,
                        Some((ts, k)) => Some((seq![t] + ts, k)),
                    }
                } else if j < s.len() && s[j] == ']' {
                    Some((seq![t], j + 1))
                } else {
                    None
                }
            },
        }
    }
}

#[via_fn]
proof fn p_tags_arr_dec(s: Seq<char>, i: int) {
    lemma_p_string_pos(s, i);
}

pub proof fn lemma_p_tags_arr_pos(s: Seq<char>, i: int)
    requires
        0 <= i <= s.len(),
    ensures
        p_tags_arr(s, i) is Some ==> i < (p_tags_arr(s, i)->Some_0).1 <= s.len(),
    decreases s.len() - i,
{
    if !(i < s.len() && s[i] == ']') {
        lemma_p_string_pos(s, i);
        match p_string(s, i) {
            None => {},
            Some((t, j)) => {
                if j < s.len() && s[j] == ',' {
                    lemma_p_tags_arr_pos(s, j + 1);
                }
            },
        }
    }
}

/// One note object.
#[verifier::opaque]
pub open spec fn p_note(s: Seq<char>, i: int) -> Option<(NoteView, int)> {
    match p_lit(s, i, lit_title()) {
        None => None,
        Some(i1) => match p_string(s, i1) {
            None => None,
            Some((title, i2)) => match p_lit(s, i2, lit_content()) {
                None => None,
                Some(i3) => match p_string(s, i3) {
                    None => None,
                    Some((content, i4)) => match p_lit(s, i4, lit_created()) {
                        None => None,
                        Some(i5) => match p_ts_quoted(s, i5) {
                            None => None,
                            Some((created, i6)) => match p_lit(s, i6, lit_updated()) {
                                None => None,
                                Some(i7) => match p_ts_quoted(s, i7) {
                                    None => None,
                                    Some((updated, i8)) => match p_lit(s, i8, lit_tags()) {
                                        None => None,
                                        Some(i9) => match p_tags_arr(s, i9) {
                                            None => None,
                                            Some((tags, i10)) => match p_char(s, i10, '}') {
                                                None => None,
                                                Some(i11) => {
                                                    if created.spec_le(updated) {
                                                        Some(
                                                            (
                                                                NoteView {
                                                                    title,
                                                                    content,
                                                                    created_at: created,
                                                                    updated_at: updated,
                                                                    tags,
                                                                },
                                                                i11,
                                                            ),
                                                        )
                                                    } else {
                                                        None
                                                    }
                                                },
                                            },
                                        },
                                    },
                                },
                            },
                        },
                    },
                },
            },
        },
    }
}

pub proof fn lemma_p_note_pos(s: Seq<char>, i: int)
    requires
        0 <= i <= s.len(),
    ensures
        p_note(s, i) is Some ==> i < (p_note(s, i)->Some_0).1 <= s.len(),
{
    reveal(p_note);
    reveal(p_ts);
    match p_lit(s, i, lit_title()) {
        None => {},
        Some(i1) => {
            lemma_p_string_pos(s, i1);
            match p_string(s, i1) {
                None => {},
                Some((_t, i2)) => match p_lit(s, i2, lit_content()) {
                    None => {},
                    Some(i3) => {
                        lemma_p_string_pos(s, i3);
                        match p_string(s, i3) {
                            None => {},
                            Some((_c, i4)) => match p_lit(s, i4, lit_created()) {
                                None => {},
                                Some(i5) => match p_ts_quoted(s, i5) {
                                    None => {},
                                    Some((_ct, i6)) => match p_lit(s, i6, lit_updated()) {
                                        None => {},
                                        Some(i7) => match p_ts_quoted(s, i7) {
                                            None => {},
                                            Some((_ut, i8)) => match p_lit(s, i8, lit_tags()) {
                                                None => {},
                                                Some(i9) => {
                                                    lemma_p_tags_arr_pos(s, i9);
                                                },
                                            },
                                        },
                                    },
                                },
                            },
                        }
                    },
                },
            }
        },
    }
}

/// A parsed note is well-formed.
pub proof fn lemma_p_note_wf(s: Seq<char>, i: int)
    ensures
        p_note(s, i) is Some ==> (p_note(s, i)->Some_0).0.well_formed(),
{
    reveal(p_note);
    reveal(p_ts);
}

/// One or more note objects separated by commas.
pub open spec fn p_note_list(s: Seq<char>, i: int) -> Option<(Seq<NoteView>, int)>
    decreases s.len() - i,
    when 0 <= i <= s.len()
    via p_note_list_dec
{
    match p_note(s, i) {
        None => None,
        Some((n, j)) => {
            if j < s.len() && s[j] == ',' {
                match p_note_list(s, j + 1) {
                    None => None,
                    Some((ns, k)) => Some((seq![n] + ns, k)),
                }
            } else {
                Some((seq![n], j))
            }
        },
    }
}

#[via_fn]
proof fn p_note_list_dec(s: Seq<char>, i: int) {
    lemma_p_note_pos(s, i);
}

pub proof fn lemma_p_note_list_pos(s: Seq<char>, i: int)
    requires
        0 <= i <= s.len(),
    ensures
        p_note_list(s, i) is Some ==> i < (p_note_list(s, i)->Some_0).1 <= s.len(),
    decreases s.len() - i,
{
    lemma_p_note_pos(s, i);
    match p_note(s, i) {
        None => {},
        Some((n, j)) => {
            if j < s.len() && s[j] == ',' {
                lemma_p_note_list_pos(s, j + 1);
            }
        },
    }
}

/// Every note of a parsed list is well-formed.
pub proof fn lemma_p_note_list_wf(s: Seq<char>, i: int)
    requires
        0 <= i <= s.len(),
    ensures
        p_note_list(s, i) is Some ==> forall|k: int|
            0 <= k < (p_note_list(s, i)->Some_0).0.len() ==> (#[trigger] (p_note_list(
                s,
                i,
            )->Some_0).0[k]).well_formed(),
    decreases s.len() - i,
{
    lemma_p_note_pos(s, i);
    lemma_p_note_wf(s, i);
    match p_note(s, i) {
        None => {},
        Some((n, j)) => {
            if j < s.len() && s[j] == ',' {
                lemma_p_note_list_pos(s, j + 1);
                lemma_p_note_list_wf(s, j + 1);
            }
        },
    }
}

/// The whole stored text as a collection: a JSON array covering the entire
/// input.
pub open spec fn spec_decode_notes(s: Seq<char>) -> Option<Seq<NoteView>> {
    if s.len() >= 2 && s[0] == '[' {
        if s[1] == ']' {
            if s.len() == 2 {
                Some(Seq::empty())
            } else {
                None
            }
        } else {
            match p_note_list(s, 1) {
                None => None,
                Some((ns, j)) => {
                    if j + 1 == s.len() && s[j] == ']' {
                        Some(ns)
                    } else {
                        None
                    }
                },
            }
        }
    } else {
        None
    }
}

fn digit_val(c: char) -> (r: Option<u32>)
    ensures
        r is Some <==> is_digit(c),
        r is Some ==> r->Some_0 < 10 && r->Some_0 as int == dig_val(c),
{
    let u = c as u32;
    if 48 <= u && u <= 57 {
        Some(u - 48)
    } else {
        None
    }
}

fn hexdigit_val(c: char) -> (r: Option<u32>)
    ensures
        r is Some <==> is_hex(c),
        r is Some ==> r->Some_0 < 16 && r->Some_0 as int == hex_val(c),
{
    let u = c as u32;
    if 48 <= u && u <= 57 {
        Some(u - 48)
    } else if 97 <= u && u <= 102 {
        Some(u - 87)
    } else {
        None
    }
}

fn match_lit(s: &Vec<char>, i: usize, lit: &Vec<char>) -> (r: Option<usize>)
    requires
        i <= s@.len(),
    ensures
        r is None <==> p_lit(s@, i as int, lit@) is None,
        r is Some ==> p_lit(s@, i as int, lit@) == Some(r->Some_0 as int) && r->Some_0 <= s@.len(),
{
    if s.len() - i < lit.len() {
        return None;
    }
    let mut k: usize = 0;
    while k < lit.len()
        invariant
            i + lit@.len() <= s@.len(),
            s@.len() <= usize::MAX,
            k <= lit@.len(),
            forall|m: int| 0 <= m < k ==> s@[i + m] == lit@[m],
        decreases lit@.len() - k,
    {
        if s[i + k] != lit[k] {
            proof {
                assert(s@.subrange(i as int, i as int + lit@.len() as int)[k as int] == s@[i as int
                    + k]);
            }
            return None;
        }
        k = k + 1;
    }
    proof {
        assert(s@.subrange(i as int, i as int + lit@.len() as int) =~= lit@);
    }
    Some(i + lit.len())
}

fn parse_num2(s: &Vec<char>, i: usize) -> (r: Option<(u32, usize)>)
    requires
        i <= s@.len(),
    ensures
        r is None <==> p_num2(s@, i as int) is None,
        r is Some ==> p_num2(s@, i as int) == Some(
            ((r->Some_0.0) as int, (r->Some_0.1) as int),
        ) && r->Some_0.1 <= s@.len() && r->Some_0.0 < 100,
{
    if s.len() - i < 2 {
        return None;
    }
    let d0 = match digit_val(s[i]) {
        None => {
            return None;
        },
        Some(d) => d,
    };
    let d1 = match digit_val(s[i + 1]) {
        None => {
            return None;
        },
        Some(d) => d,
    };
    Some((10 * d0 + d1, i + 2))
}

fn parse_num4(s: &Vec<char>, i: usize) -> (r: Option<(u32, usize)>)
    requires
        i <= s@.len(),
    ensures
        r is None <==> p_num4(s@, i as int) is None,
        r is Some ==> p_num4(s@, i as int) == Some(
            ((r->Some_0.0) as int, (r->Some_0.1) as int),
        ) && r->Some_0.1 <= s@.len() && r->Some_0.0 < 10000,
{
    if s.len() - i < 4 {
        return None;
    }
    let d0 = match digit_val(s[i]) {
        None => {
            return None;
        },
        Some(d) => d,
    };
    let d1 = match digit_val(s[i + 1]) {
        None => {
            return None;
        },
        Some(d) => d,
    };
    let d2 = match digit_val(s[i + 2]) {
        None => {
            return None;
        },
        Some(d) => d,
    };
    let d3 = match digit_val(s[i + 3]) {
        None => {
            return None;
        },
        Some(d) => d,
    };
    Some((1000 * d0 + 100 * d1 + 10 * d2 + d3, i + 4))
}

fn digit_at(s: &Vec<char>, j: usize) -> (r: Option<u32>)
    requires
        j < s@.len(),
    ensures
        r is Some <==> is_digit(s@[j as int]),
        r is Some ==> r->Some_0 < 10 && r->Some_0 as int == dig_val(s@[j as int]),
{
    digit_val(s[j])
}

fn parse_frac(s: &Vec<char>, i: usize) -> (r: Option<(u32, usize)>)
    requires
        i <= s@.len(),
    ensures
        r is None <==> p_frac(s@, i as int) is None,
        r is Some ==> p_frac(s@, i as int) == Some(
            ((r->Some_0.0) as int, (r->Some_0.1) as int),
        ) && r->Some_0.1 <= s@.len() && r->Some_0.0 < 1000000000,
{
    proof {
        reveal_with_fuel(pow10, 11);
    }
    let mut j: usize = i;
    let mut val: u32 = 0;
    while j - i < 9 && j < s.len() && digit_at(s, j).is_some()
        invariant
            i <= j <= s@.len(),
            j - i <= 9,
            forall|m: int| i <= m < j ==> is_digit(#[trigger] s@[m]),
            val as int == digits_val(s@, i as int, j - i),
            (val as int) < pow10(j - i),
        decreases s@.len() - j,
    {
        proof {
            reveal_with_fuel(pow10, 11);
        }
        let d = digit_at(s, j).unwrap();
        proof {
            assert(digits_val(s@, i as int, (j - i) + 1) == digits_val(s@, i as int, j - i) * 10
                + dig_val(s@[i + (j - i)]));
            assert(s@[i + (j - i)] == s@[j as int]);
            assert(pow10((j - i) + 1) == 10 * pow10(j - i));
        }
        val = 10 * val + d;
        j = j + 1;
    }
    let l = j - i;
    if l == 0 {
        proof {
            lemma_digit_run_is(s@, i as int, 0);
        }
        return None;
    }
    if l == 9 && j < s.len() {
        match digit_at(s, j) {
            Some(_) => {
                proof {
                    lemma_digit_run_at_least(s@, i as int, 10);
                }
                return None;
            },
            None => {},
        }
    }
    proof {
        lemma_digit_run_is(s@, i as int, l as int);
    }
    let scale: u32 = if l == 1 {
        100000000
    } else if l == 2 {
        10000000
    } else if l == 3 {
        1000000
    } else if l == 4 {
        100000
    } else if l == 5 {
        10000
    } else if l == 6 {
        1000
    } else if l == 7 {
        100
    } else if l == 8 {
        10
    } else {
        1
    };
    proof {
        reveal_with_fuel(pow10, 11);
        assert(scale as int == pow10(9 - l as int));
        lemma_pow10_adds(l as int, 9 - l as int);
        assert((val as int) * (scale as int) < 1000000000) by (nonlinear_arith)
            requires
                0 <= val as int,
                0 < scale as int,
                (val as int) < pow10(l as int),
                scale as int == pow10(9 - l as int),
                pow10(l as int) * pow10(9 - l as int) == 1000000000,
        ;
    }
    Some((val * scale, j))
}

/// The digit run at `i` is exactly `l` when `l` digits stand there and,
/// unless `l` reaches the cap of ten, no digit follows them.
proof fn lemma_digit_run_is(s: Seq<char>, i: int, l: int)
    requires
        0 <= i,
        0 <= l <= 10,
        i + l <= s.len(),
        forall|m: int| i <= m < i + l ==> is_digit(#[trigger] s[m]),
        l < 10 ==> !(i + l < s.len() && is_digit(s[i + l])),
    ensures
        digit_run(s, i, 10) == l,
{
    lemma_digit_run_is_rec(s, i, l, 10);
}

proof fn lemma_digit_run_is_rec(s: Seq<char>, i: int, l: int, cap: int)
    requires
        0 <= i,
        0 <= l <= cap,
        i + l <= s.len(),
        forall|m: int| i <= m < i + l ==> is_digit(#[trigger] s[m]),
        l < cap ==> !(i + l < s.len() && is_digit(s[i + l])),
    ensures
        digit_run(s, i, cap) == l,
    decreases l,
{
    if l > 0 {
        assert(is_digit(s[i]));
        lemma_digit_run_is_rec(s, i + 1, l - 1, cap - 1);
    }
}

/// Ten digits at `i` fill a run capped at ten.
proof fn lemma_digit_run_at_least(s: Seq<char>, i: int, cap: int)
    requires
        0 <= i,
        0 <= cap,
        i + cap <= s.len(),
        forall|m: int| i <= m < i + cap ==> is_digit(#[trigger] s[m]),
    ensures
        digit_run(s, i, cap) == cap,
    decreases cap,
{
    if cap > 0 {
        assert(is_digit(s[i]));
        lemma_digit_run_at_least(s, i + 1, cap - 1);
    }
}

/// Powers of ten multiply by adding exponents.
proof fn lemma_pow10_adds(a: int, b: int)
    requires
        0 <= a,
        0 <= b,
    ensures
        pow10(a) * pow10(b) == pow10(a + b),
    decreases a,
{
    if a == 0 {
    } else {
        lemma_pow10_adds(a - 1, b);
        assert(pow10(a) * pow10(b) == 10 * (pow10(a - 1) * pow10(b))) by (nonlinear_arith)
            requires
                pow10(a) == 10 * pow10(a - 1),
        ;
    }
}

fn parse_ts(s: &Vec<char>, i: usize) -> (r: Option<(Timestamp, usize)>)
    requires
        i <= s@.len(),
    ensures
        r is None <==> p_ts(s@, i as int) is None,
        r is Some ==> p_ts(s@, i as int) == Some((r->Some_0.0, (r->Some_0.1) as int))
            && r->Some_0.1 <= s@.len(),
{
    proof {
        reveal(p_ts);
    }
    let (y, i1) = match parse_num4(s, i) {
        None => {
            return None;
        },
        Some(v) => v,
    };
    if !(i1 < s.len() && s[i1] == '-') {
        return None;
    }
    let (mo, i3) = match parse_num2(s, i1 + 1) {
        None => {
            return None;
        },
        Some(v) => v,
    };
    if !(i3 < s.len() && s[i3] == '-') {
        return None;
    }
    let (d, i5) = match parse_num2(s, i3 + 1) {
        None => {
            return None;
        },
        Some(v) => v,
    };
    if !(i5 < s.len() && s[i5] == 'T') {
        return None;
    }
    let (h, i7) = match parse_num2(s, i5 + 1) {
        None => {
            return None;
        },
        Some(v) => v,
    };
    if !(i7 < s.len() && s[i7] == ':') {
        return None;
    }
    let (mi, i9) = match parse_num2(s, i7 + 1) {
        None => {
            return None;
        },
        Some(v) => v,
    };
    if !(i9 < s.len() && s[i9] == ':') {
        return None;
    }
    let (se, i11) = match parse_num2(s, i9 + 1) {
        None => {
            return None;
        },
        Some(v) => v,
    };
    let (na, j) = if i11 < s.len() && s[i11] == '.' {
        match parse_frac(s, i11 + 1) {
            None => {
                return None;
            },
            Some(v) => v,
        }
    } else {
        (0u32, i11)
    };
    if !(j < s.len() && s[j] == 'Z') {
        return None;
    }
    let t = Timestamp { year: y, month: mo, day: d, hour: h, minute: mi, second: se, nanos: na };
    if t.check_well_formed() {
        Some((t, j + 1))
    } else {
        None
    }
}

fn parse_str_body(s: &Vec<char>, i: usize) -> (r: Option<(Vec<char>, usize)>)
    requires
        i <= s@.len(),
    ensures
        r is None <==> p_str_body(s@, i as int) is None,
        r is Some ==> p_str_body(s@, i as int) == Some(((r->Some_0.0)@, (r->Some_0.1) as int)) && i
            < r->Some_0.1 <= s@.len(),
    decreases s@.len() - i,
{
    if i == s.len() {
        return None;
    }
    let c = s[i];
    if c == '"' {
        let empty: Vec<char> = Vec::new();
        proof {
            assert(empty@ =~= Seq::<char>::empty());
        }
        return Some((empty, i + 1));
    }
    if c == '\\' {
        if i + 1 == s.len() {
            return None;
        }
        let e = s[i + 1];
        if e == '"' || e == '\\' || e == '/' || e == 'n' || e == 't' || e == 'r' || e == 'b' || e
            == 'f' {
            let unescaped: char = if e == 'n' {
                '\n'
            } else if e == 't' {
                '\t'
            } else if e == 'r' {
                '\r'
            } else if e == 'b' {
                '\u{8}'
            } else if e == 'f' {
                '\u{c}'
            } else {
                e
            };
            match parse_str_body(s, i + 2) {
                None => None,
                Some((t, j)) => {
                    let mut t = t;
                    let ghost t0 = t@;
                    t.insert(0, unescaped);
                    proof {
                        assert(t@ =~= seq![unescaped] + t0);
                    }
                    Some((t, j))
                },
            }
        } else if e == 'u' {
            if s.len() - i < 6 {
                return None;
            }
            if !(s[i + 2] == '0' && s[i + 3] == '0') {
                return None;
            }
            let h1 = match hexdigit_val(s[i + 4]) {
                None => {
                    return None;
                },
                Some(v) => v,
            };
            let h2 = match hexdigit_val(s[i + 5]) {
                None => {
                    return None;
                },
                Some(v) => v,
            };
            let v: u32 = 16 * h1 + h2;
            if v >= 32 {
                return None;
            }
            let u: u8 = v as u8;
            let c2: char = u as char;
            proof {
                assert(c2 == ((16 * hex_val(s@[i + 4]) + hex_val(s@[i + 5])) as u32) as char);
            }
            match parse_str_body(s, i + 6) {
                None => None,
                Some((t, j)) => {
                    let mut t = t;
                    let ghost t0 = t@;
                    t.insert(0, c2);
                    proof {
                        assert(t@ =~= seq![c2] + t0);
                    }
                    Some((t, j))
                },
            }
        } else {
            None
        }
    } else if (c as u32) < 32 {
        None
    } else {
        match parse_str_body(s, i + 1) {
            None => None,
            Some((t, j)) => {
                let mut t = t;
                let ghost t0 = t@;
                t.insert(0, c);
                proof {
                    assert(t@ =~= seq![c] + t0);
                }
                Some((t, j))
            },
        }
    }
}

fn parse_string(s: &Vec<char>, i: usize) -> (r: Option<(Vec<char>, usize)>)
    requires
        i <= s@.len(),
    ensures
        r is None <==> p_string(s@, i as int) is None,
        r is Some ==> p_string(s@, i as int) == Some(((r->Some_0.0)@, (r->Some_0.1) as int)) && i
            + 2 <= r->Some_0.1 <= s@.len(),
{
    if i < s.len() && s[i] == '"' {
        parse_str_body(s, i + 1)
    } else {
        None
    }
}

fn parse_ts_quoted(s: &Vec<char>, i: usize) -> (r: Option<(Timestamp, usize)>)
    requires
        i <= s@.len(),
    ensures
        r is None <==> p_ts_quoted(s@, i as int) is None,
        r is Some ==> p_ts_quoted(s@, i as int) == Some((r->Some_0.0, (r->Some_0.1) as int)) && i
            < r->Some_0.1 <= s@.len(),
{
    proof {
        reveal(p_ts);
    }
    if !(i < s.len() && s[i] == '"') {
        return None;
    }
    let (t, j) = match parse_ts(s, i + 1) {
        None => {
            return None;
        },
        Some(v) => v,
    };
    if j < s.len() && s[j] == '"' {
        Some((t, j + 1))
    } else {
        None
    }
}

fn parse_tags_arr(s: &Vec<char>, i: usize) -> (r: Option<(Vec<String>, usize)>)
    requires
        i <= s@.len(),
    ensures
        r is None <==> p_tags_arr(s@, i as int) is None,
        r is Some ==> p_tags_arr(s@, i as int) == Some(
            (seq_views((r->Some_0.0)@), (r->Some_0.1) as int),
        ) && i < r->Some_0.1 <= s@.len(),
    decreases s@.len() - i,
{
    if i < s.len() && s[i] == ']' {
        let empty: Vec<String> = Vec::new();
        proof {
            assert(seq_views(empty@) =~= Seq::<Seq<char>>::empty());
        }
        return Some((empty, i + 1));
    }
    let (t, j) = match parse_string(s, i) {
        None => {
            return None;
        },
        Some(v) => v,
    };
    let ts = chars_to_string(&t);
    if j < s.len() && s[j] == ',' {
        match parse_tags_arr(s, j + 1) {
            None => None,
            Some((rest, k)) => {
                let mut rest = rest;
                let ghost r0 = rest@;
                rest.insert(0, ts);
                proof {
                    assert(seq_views(rest@) =~= seq![t@] + seq_views(r0));
                }
                Some((rest, k))
            },
        }
    } else if j < s.len() && s[j] == ']' {
        let mut v: Vec<String> = Vec::new();
        v.push(ts);
        proof {
            assert(seq_views(v@) =~= seq![t@]);
        }
        Some((v, j + 1))
    } else {
        None
    }
}

fn parse_note(s: &Vec<char>, i: usize) -> (r: Option<(Note, usize)>)
    requires
        i <= s@.len(),
    ensures
        r is None <==> p_note(s@, i as int) is None,
        r is Some ==> p_note(s@, i as int) == Some(((r->Some_0.0)@, (r->Some_0.1) as int)) && i
            < r->Some_0.1 <= s@.len(),
{
    proof {
        reveal(p_note);
    }
    let mut lit1: Vec<char> = Vec::new();
    push_lit_title(&mut lit1);
    let i1 = match match_lit(s, i, &lit1) {
        None => {
            return None;
        },
        Some(v) => v,
    };
    let (title_cs, i2) = match parse_string(s, i1) {
        None => {
            return None;
        },
        Some(v) => v,
    };
    let mut lit2: Vec<char> = Vec::new();
    push_lit_content(&mut lit2);
    let i3 = match match_lit(s, i2, &lit2) {
        None => {
            return None;
        },
        Some(v) => v,
    };
    let (content_cs, i4) = match parse_string(s, i3) {
        None => {
            return None;
        },
        Some(v) => v,
    };
    let mut lit3: Vec<char> = Vec::new();
    push_lit_created(&mut lit3);
    let i5 = match match_lit(s, i4, &lit3) {
        None => {
            return None;
        },
        Some(v) => v,
    };
    let (created, i6) = match parse_ts_quoted(s, i5) {
        None => {
            return None;
        },
        Some(v) => v,
    };
    let mut lit4: Vec<char> = Vec::new();
    push_lit_updated(&mut lit4);
    let i7 = match match_lit(s, i6, &lit4) {
        None => {
            return None;
        },
        Some(v) => v,
    };
    let (updated, i8) = match parse_ts_quoted(s, i7) {
        None => {
            return None;
        },
        Some(v) => v,
    };
    let mut lit5: Vec<char> = Vec::new();
    push_lit_tags(&mut lit5);
    let i9 = match match_lit(s, i8, &lit5) {
        None => {
            return None;
        },
        Some(v) => v,
    };
    let (tags, i10) = match parse_tags_arr(s, i9) {
        None => {
            return None;
        },
        Some(v) => v,
    };
    if !(i10 < s.len() && s[i10] == '}') {
        return None;
    }
    if !created.le(&updated) {
        return None;
    }
    let note = Note {
        title: chars_to_string(&title_cs),
        content: chars_to_string(&content_cs),
        created_at: created,
        updated_at: updated,
        tags,
    };
    Some((note, i10 + 1))
}

fn parse_note_list(s: &Vec<char>, i: usize) -> (r: Option<(Vec<Note>, usize)>)
    requires
        i <= s@.len(),
    ensures
        r is None <==> p_note_list(s@, i as int) is None,
        r is Some ==> p_note_list(s@, i as int) == Some(
            (seq_views((r->Some_0.0)@), (r->Some_0.1) as int),
        ) && i < r->Some_0.1 <= s@.len(),
    decreases s@.len() - i,
{
    let (n, j) = match parse_note(s, i) {
        None => {
            return None;
        },
        Some(v) => v,
    };
    if j < s.len() && s[j] == ',' {
        match parse_note_list(s, j + 1) {
            None => None,
            Some((rest, k)) => {
                let mut rest = rest;
                let ghost r0 = rest@;
                rest.insert(0, n);
                proof {
                    assert(seq_views(rest@) =~= seq![n@] + seq_views(r0));
                }
                Some((rest, k))
            },
        }
    } else {
        let mut v: Vec<Note> = Vec::new();
        v.push(n);
        proof {
            assert(seq_views(v@) =~= seq![n@]);
        }
        Some((v, j))
    }
}

/// The error for stored text that is not a valid note collection.
#[derive(Debug, Clone, Copy, PartialEq, Eq, Structural)]
pub enum DecodeError {
    Malformed,
}

/// Decodes a stored collection. Succeeds exactly on text that
/// [`spec_decode_notes`] accepts, and then returns exactly the notes it
/// describes, all well-formed; everything else is `Malformed`.
pub fn decode_notes(s: &str) -> (r: Result<Vec<Note>, DecodeError>)
    ensures
        r is Ok <==> spec_decode_notes(s@) is Some,
        r is Ok ==> seq_views((r->Ok_0)@) == spec_decode_notes(s@)->Some_0,
        r is Ok ==> forall|k: int|
            0 <= k < (r->Ok_0)@.len() ==> (#[trigger] (r->Ok_0)@[k])@.well_formed(),
        r is Err ==> r->Err_0 == DecodeError::Malformed,
{
    let cs = str_to_chars(s);
    if cs.len() < 2 {
        return Err(DecodeError::Malformed);
    }
    if cs[0] != '[' {
        return Err(DecodeError::Malformed);
    }
    if cs[1] == ']' {
        if cs.len() == 2 {
            let v: Vec<Note> = Vec::new();
            proof {
                assert(seq_views(v@) =~= Seq::<NoteView>::empty());
            }
            return Ok(v);
        } else {
            return Err(DecodeError::Malformed);
        }
    }
    match parse_note_list(&cs, 1) {
        None => Err(DecodeError::Malformed),
        Some((ns, j)) => {
            if j == cs.len() - 1 && cs[j] == ']' {
                proof {
                    lemma_p_note_list_wf(s@, 1);
                    assert forall|k: int| 0 <= k < ns@.len() implies (
                    #[trigger] ns@[k])@.well_formed() by {
                        assert((p_note_list(s@, 1)->Some_0).0[k] == seq_views(ns@)[k]);
                    }
                }
                Ok(ns)
            } else {
                Err(DecodeError::Malformed)
            }
        },
    }
}

/// Loads a collection from storage text, if storage exists: absent storage
/// (`None`) is an empty collection, not an error; present storage must
/// decode as [`decode_notes`] says.
pub fn load_notes(contents: Option<&str>) -> (r: Result<Vec<Note>, DecodeError>)
    ensures
        contents is None ==> r is Ok && (r->Ok_0)@.len() == 0,
        contents is Some ==> {
            let s = contents->Some_0;
            &&& (r is Ok <==> spec_decode_notes(s@) is Some)
            &&& (r is Ok ==> seq_views((r->Ok_0)@) == spec_decode_notes(s@)->Some_0)
            &&& (r is Ok ==> forall|k: int|
                0 <= k < (r->Ok_0)@.len() ==> (#[trigger] (r->Ok_0)@[k])@.well_formed())
            &&& (r is Err ==> r->Err_0 == DecodeError::Malformed)
        },
{
    match contents {
        None => Ok(Vec::new()),
        Some(s) => decode_notes(s),
    }
}

/// The text `x` stands at position `i` of `s`.
pub open spec fn at(s: Seq<char>, i: int, x: Seq<char>) -> bool {
    0 <= i && i + x.len() <= s.len() && s.subrange(i, i + x.len()) == x
}

proof fn lemma_at_char(s: Seq<char>, i: int, x: Seq<char>, k: int)
    requires
        at(s, i, x),
        0 <= k < x.len(),
    ensures
        s[i + k] == x[k],
{
    assert(s.subrange(i, i + x.len())[k] == s[i + k]);
}

proof fn lemma_at_split(s: Seq<char>, i: int, a: Seq<char>, b: Seq<char>)
    requires
        at(s, i, a + b),
    ensures
        at(s, i, a),
        at(s, i + a.len(), b),
{
    let w = a + b;
    assert forall|k: int| 0 <= k < a.len() implies s.subrange(i, i + a.len())[k] == a[k] by {
        assert(s.subrange(i, i + w.len())[k] == s[i + k]);
        assert(s.subrange(i, i + a.len())[k] == s[i + k]);
        assert(w[k] == a[k]);
    }
    assert(s.subrange(i, i + a.len()) =~= a);
    let j = i + a.len();
    assert forall|k: int| 0 <= k < b.len() implies s.subrange(j, j + b.len())[k] == b[k] by {
        assert(s.subrange(i, i + w.len())[a.len() + k] == s[i + a.len() + k]);
        assert(s.subrange(j, j + b.len())[k] == s[j + k]);
        assert(w[a.len() + k] == b[k]);
    }
    assert(s.subrange(j, j + b.len()) =~= b);
}

proof fn lemma_dig_roundtrip(d: int)
    requires
        0 <= d < 10,
    ensures
        is_digit(dig(d)),
        dig_val(dig(d)) == d,
{
}

proof fn lemma_hexdig_roundtrip(d: int)
    requires
        0 <= d < 16,
    ensures
        is_hex(hexdig(d)),
        hex_val(hexdig(d)) == d,
{
}

proof fn lemma_p_num2_enc(s: Seq<char>, i: int, n: int)
    requires
        0 <= n < 100,
        at(s, i, num2(n)),
    ensures
        p_num2(s, i) == Some((n, i + 2)),
{
    lemma_dig_roundtrip(n / 10 % 10);
    lemma_dig_roundtrip(n % 10);
    lemma_at_char(s, i, num2(n), 0);
    lemma_at_char(s, i, num2(n), 1);
    assert(n / 10 % 10 == n / 10);
    assert(10 * (n / 10) + n % 10 == n);
}

proof fn lemma_p_num4_enc(s: Seq<char>, i: int, n: int)
    requires
        0 <= n < 10000,
        at(s, i, num4(n)),
    ensures
        p_num4(s, i) == Some((n, i + 4)),
{
    lemma_dig_roundtrip(n / 1000 % 10);
    lemma_dig_roundtrip(n / 100 % 10);
    lemma_dig_roundtrip(n / 10 % 10);
    lemma_dig_roundtrip(n % 10);
    lemma_at_char(s, i, num4(n), 0);
    lemma_at_char(s, i, num4(n), 1);
    lemma_at_char(s, i, num4(n), 2);
    lemma_at_char(s, i, num4(n), 3);
    assert(n / 1000 % 10 == n / 1000);
    assert((n / 10) / 10 == n / 100) by (nonlinear_arith)
        requires
            0 <= n,
    ;
    assert((n / 100) / 10 == n / 1000) by (nonlinear_arith)
        requires
            0 <= n,
    ;
    assert(n == 10 * (n / 10) + n % 10);
    assert(n / 10 == 10 * (n / 100) + n / 10 % 10);
    assert(n / 100 == 10 * (n / 1000) + n / 100 % 10);
    assert(1000 * (n / 1000) + 100 * (n / 100 % 10) + 10 * (n / 10 % 10) + n % 10 == n);
}

proof fn lemma_p_frac_num9(s: Seq<char>, i: int, n: int)
    requires
        0 <= n < 1000000000,
        at(s, i, num9(n)),
        !(i + 9 < s.len() && is_digit(s[i + 9])),
    ensures
        p_frac(s, i) == Some((n, i + 9)),
{
    let x = num9(n);
    lemma_dig_roundtrip(n / 100000000 % 10);
    lemma_dig_roundtrip(n / 10000000 % 10);
    lemma_dig_roundtrip(n / 1000000 % 10);
    lemma_dig_roundtrip(n / 100000 % 10);
    lemma_dig_roundtrip(n / 10000 % 10);
    lemma_dig_roundtrip(n / 1000 % 10);
    lemma_dig_roundtrip(n / 100 % 10);
    lemma_dig_roundtrip(n / 10 % 10);
    lemma_dig_roundtrip(n % 10);
    lemma_at_char(s, i, x, 0);
    lemma_at_char(s, i, x, 1);
    lemma_at_char(s, i, x, 2);
    lemma_at_char(s, i, x, 3);
    lemma_at_char(s, i, x, 4);
    lemma_at_char(s, i, x, 5);
    lemma_at_char(s, i, x, 6);
    lemma_at_char(s, i, x, 7);
    lemma_at_char(s, i, x, 8);
    assert forall|m: int| i <= m < i + 9 implies is_digit(#[trigger] s[m]) by {
        assert(s[m] == s[i + (m - i)]);
    }
    lemma_digit_run_is(s, i, 9);
    assert(n / 100000000 % 10 == n / 100000000);
    assert((n / 10) / 10 == n / 100) by (nonlinear_arith)
        requires
            0 <= n,
    ;
    assert((n / 100) / 10 == n / 1000) by (nonlinear_arith)
        requires
            0 <= n,
    ;
    assert((n / 1000) / 10 == n / 10000) by (nonlinear_arith)
        requires
            0 <= n,
    ;
    assert((n / 10000) / 10 == n / 100000) by (nonlinear_arith)
        requires
            0 <= n,
    ;
    assert((n / 100000) / 10 == n / 1000000) by (nonlinear_arith)
        requires
            0 <= n,
    ;
    assert((n / 1000000) / 10 == n / 10000000) by (nonlinear_arith)
        requires
            0 <= n,
    ;
    assert((n / 10000000) / 10 == n / 100000000) by (nonlinear_arith)
        requires
            0 <= n,
    ;
    assert(n == 10 * (n / 10) + n % 10);
    assert(n / 10 == 10 * (n / 100) + n / 10 % 10);
    assert(n / 100 == 10 * (n / 1000) + n / 100 % 10);
    assert(n / 1000 == 10 * (n / 10000) + n / 1000 % 10);
    assert(n / 10000 == 10 * (n / 100000) + n / 10000 % 10);
    assert(n / 100000 == 10 * (n / 1000000) + n / 100000 % 10);
    assert(n / 1000000 == 10 * (n / 10000000) + n / 1000000 % 10);
    assert(n / 10000000 == 10 * (n / 100000000) + n / 10000000 % 10);
    reveal_with_fuel(digits_val, 11);
    assert(digits_val(s, i, 1) == n / 100000000);
    assert(digits_val(s, i, 2) == n / 10000000);
    assert(digits_val(s, i, 3) == n / 1000000);
    assert(digits_val(s, i, 4) == n / 100000);
    assert(digits_val(s, i, 5) == n / 10000);
    assert(digits_val(s, i, 6) == n / 1000);
    assert(digits_val(s, i, 7) == n / 100);
    assert(digits_val(s, i, 8) == n / 10);
    assert(digits_val(s, i, 9) == n);
    reveal_with_fuel(pow10, 2);
    assert(pow10(0) == 1);
}

#[verifier::rlimit(100)]
#[verifier::spinoff_prover]
proof fn lemma_p_ts_enc(s: Seq<char>, i: int, t: Timestamp)
    requires
        t.well_formed(),
        at(s, i, enc_ts(t)),
    ensures
        p_ts(s, i) == Some((t, i + enc_ts(t).len())),
{
    reveal(p_ts);
    let y = t.year as int;
    let mo = t.month as int;
    let d = t.day as int;
    let h = t.hour as int;
    let mi = t.minute as int;
    let se = t.second as int;
    let frac: Seq<char> = if t.nanos == 0 {
        Seq::<char>::empty()
    } else {
        seq!['.'] + num9(t.nanos as int)
    };
    let e = enc_ts(t);
    assert(e =~= num4(y) + (seq!['-'] + (num2(mo) + (seq!['-'] + (num2(d) + (seq!['T'] + (num2(h)
        + (seq![':'] + (num2(mi) + (seq![':'] + (num2(se) + (frac + seq!['Z']))))))))))));
    lemma_at_split(
        s,
        i,
        num4(y),
        seq!['-'] + (num2(mo) + (seq!['-'] + (num2(d) + (seq!['T'] + (num2(h) + (seq![':'] + (num2(
            mi,
        ) + (seq![':'] + (num2(se) + (frac + seq!['Z'])))))))))),
    );
    lemma_p_num4_enc(s, i, y);
    let i1 = i + 4;
    lemma_at_split(
        s,
        i1,
        seq!['-'],
        num2(mo) + (seq!['-'] + (num2(d) + (seq!['T'] + (num2(h) + (seq![':'] + (num2(mi) + (
        seq![':'] + (num2(se) + (frac + seq!['Z']))))))))),
    );
    lemma_at_char(s, i1, seq!['-'], 0);
    let i2 = i1 + 1;
    lemma_at_split(
        s,
        i2,
        num2(mo),
        seq!['-'] + (num2(d) + (seq!['T'] + (num2(h) + (seq![':'] + (num2(mi) + (seq![':'] + (num2(
            se,
        ) + (frac + seq!['Z'])))))))),
    );
    lemma_p_num2_enc(s, i2, mo);
    let i3 = i2 + 2;
    lemma_at_split(
        s,
        i3,
        seq!['-'],
        num2(d) + (seq!['T'] + (num2(h) + (seq![':'] + (num2(mi) + (seq![':'] + (num2(se) + (frac
            + seq!['Z']))))))),
    );
    lemma_at_char(s, i3, seq!['-'], 0);
    let i4 = i3 + 1;
    lemma_at_split(
        s,
        i4,
        num2(d),
        seq!['T'] + (num2(h) + (seq![':'] + (num2(mi) + (seq![':'] + (num2(se) + (frac
            + seq!['Z'])))))),
    );
    lemma_p_num2_enc(s, i4, d);
    let i5 = i4 + 2;
    lemma_at_split(
        s,
        i5,
        seq!['T'],
        num2(h) + (seq![':'] + (num2(mi) + (seq![':'] + (num2(se) + (frac + seq!['Z']))))),
    );
    lemma_at_char(s, i5, seq!['T'], 0);
    let i6 = i5 + 1;
    lemma_at_split(
        s,
        i6,
        num2(h),
        seq![':'] + (num2(mi) + (seq![':'] + (num2(se) + (frac + seq!['Z'])))),
    );
    lemma_p_num2_enc(s, i6, h);
    let i7 = i6 + 2;
    lemma_at_split(s, i7, seq![':'], num2(mi) + (seq![':'] + (num2(se) + (frac + seq!['Z']))));
    lemma_at_char(s, i7, seq![':'], 0);
    let i8 = i7 + 1;
    lemma_at_split(s, i8, num2(mi), seq![':'] + (num2(se) + (frac + seq!['Z'])));
    lemma_p_num2_enc(s, i8, mi);
    let i9 = i8 + 2;
    lemma_at_split(s, i9, seq![':'], num2(se) + (frac + seq!['Z']));
    lemma_at_char(s, i9, seq![':'], 0);
    let i10 = i9 + 1;
    lemma_at_split(s, i10, num2(se), frac + seq!['Z']);
    lemma_p_num2_enc(s, i10, se);
    let i11 = i10 + 2;
    if t.nanos == 0 {
        assert(frac + seq!['Z'] =~= seq!['Z']);
        lemma_at_char(s, i11, frac + seq!['Z'], 0);
        assert(s[i11] == 'Z');
    } else {
        assert(frac + seq!['Z'] =~= seq!['.'] + (num9(t.nanos as int) + seq!['Z']));
        lemma_at_split(s, i11, seq!['.'], num9(t.nanos as int) + seq!['Z']);
        lemma_at_char(s, i11, seq!['.'], 0);
        lemma_at_split(s, i11 + 1, num9(t.nanos as int), seq!['Z']);
        lemma_at_char(s, i11 + 10, seq!['Z'], 0);
        assert(!is_digit('Z'));
        lemma_p_frac_num9(s, i11 + 1, t.nanos as int);
    }
}

proof fn lemma_p_str_body_enc(s: Seq<char>, i: int, v: Seq<char>)
    requires
        at(s, i, esc(v) + seq!['"']),
    ensures
        p_str_body(s, i) == Some((v, i + esc(v).len() + 1)),
    decreases v.len(),
{
    if v.len() == 0 {
        assert(esc(v) + seq!['"'] =~= seq!['"']);
        lemma_at_char(s, i, esc(v) + seq!['"'], 0);
        assert(s[i] == '"');
        assert(v =~= Seq::<char>::empty());
    } else {
        let c = v[0];
        let w = esc(v.drop_first()) + seq!['"'];
        assert(esc(v) == esc1(c) + esc(v.drop_first()));
        assert(esc(v) + seq!['"'] =~= esc1(c) + w);
        lemma_at_split(s, i, esc1(c), w);
        lemma_p_str_body_enc(s, i + esc1(c).len(), v.drop_first());
        if c == '"' {
            lemma_at_char(s, i, esc1(c), 0);
            lemma_at_char(s, i, esc1(c), 1);
            assert(seq!['"'] + v.drop_first() =~= v);
        } else if c == '\\' {
            lemma_at_char(s, i, esc1(c), 0);
            lemma_at_char(s, i, esc1(c), 1);
            assert(seq!['\\'] + v.drop_first() =~= v);
        } else if (c as u32) < 32 {
            let u = ((c as u32) as int);
            lemma_at_char(s, i, esc1(c), 0);
            lemma_at_char(s, i, esc1(c), 1);
            lemma_at_char(s, i, esc1(c), 2);
            lemma_at_char(s, i, esc1(c), 3);
            lemma_at_char(s, i, esc1(c), 4);
            lemma_at_char(s, i, esc1(c), 5);
            lemma_hexdig_roundtrip(u / 16);
            lemma_hexdig_roundtrip(u % 16);
            assert(16 * (u / 16) + u % 16 == u);
            assert(16 * hex_val(s[i + 4]) + hex_val(s[i + 5]) == u);
            vstd::utf8::char_u32_cast(c, c as u32);
            assert(((16 * hex_val(s[i + 4]) + hex_val(s[i + 5])) as u32) as char == c);
            assert(seq![c] + v.drop_first() =~= v);
        } else {
            lemma_at_char(s, i, esc1(c), 0);
            assert(s[i] == c);
            assert(seq![c] + v.drop_first() =~= v);
        }
    }
}

proof fn lemma_p_string_enc(s: Seq<char>, i: int, v: Seq<char>)
    requires
        at(s, i, enc_str(v)),
    ensures
        p_string(s, i) == Some((v, i + enc_str(v).len())),
{
    assert(enc_str(v) =~= seq!['"'] + (esc(v) + seq!['"']));
    lemma_at_split(s, i, seq!['"'], esc(v) + seq!['"']);
    lemma_at_char(s, i, seq!['"'], 0);
    lemma_p_str_body_enc(s, i + 1, v);
}

proof fn lemma_p_ts_quoted_enc(s: Seq<char>, i: int, t: Timestamp)
    requires
        t.well_formed(),
        at(s, i, enc_ts_str(t)),
    ensures
        p_ts_quoted(s, i) == Some((t, i + enc_ts_str(t).len())),
{
    assert(enc_ts_str(t) =~= seq!['"'] + (enc_ts(t) + seq!['"']));
    lemma_at_split(s, i, seq!['"'], enc_ts(t) + seq!['"']);
    lemma_at_char(s, i, seq!['"'], 0);
    lemma_at_split(s, i + 1, enc_ts(t), seq!['"']);
    lemma_p_ts_enc(s, i + 1, t);
    lemma_at_char(s, i + 1 + enc_ts(t).len(), seq!['"'], 0);
}

proof fn lemma_p_tags_arr_enc(s: Seq<char>, i: int, tags: Seq<Seq<char>>)
    requires
        at(s, i, enc_tags(tags) + seq![']']),
    ensures
        p_tags_arr(s, i) == Some((tags, i + enc_tags(tags).len() + 1)),
    decreases tags.len(),
{
    if tags.len() == 0 {
        assert(enc_tags(tags) + seq![']'] =~= seq![']']);
        lemma_at_char(s, i, enc_tags(tags) + seq![']'], 0);
        assert(tags =~= Seq::<Seq<char>>::empty());
    } else if tags.len() == 1 {
        let t = tags[0];
        assert(enc_tags(tags) == enc_str(t));
        lemma_at_split(s, i, enc_str(t), seq![']']);
        lemma_p_string_enc(s, i, t);
        let j = i + enc_str(t).len();
        lemma_at_char(s, j, seq![']'], 0);
        lemma_at_char(s, i, enc_str(t), 0);
        assert(s[i] == '"');
        assert(seq![t] =~= tags);
    } else {
        let t = tags[0];
        let rest = tags.drop_first();
        assert(enc_tags(tags) == enc_str(t) + seq![','] + enc_tags(rest));
        assert(enc_tags(tags) + seq![']'] =~= enc_str(t) + (seq![','] + (enc_tags(rest)
            + seq![']'])));
        lemma_at_split(s, i, enc_str(t), seq![','] + (enc_tags(rest) + seq![']']));
        lemma_p_string_enc(s, i, t);
        let j = i + enc_str(t).len();
        lemma_at_split(s, j, seq![','], enc_tags(rest) + seq![']']);
        lemma_at_char(s, j, seq![','], 0);
        lemma_p_tags_arr_enc(s, j + 1, rest);
        lemma_at_char(s, i, enc_str(t), 0);
        assert(s[i] == '"');
        assert(seq![t] + rest =~= tags);
    }
}

#[verifier::rlimit(100)]
proof fn lemma_p_note_enc(s: Seq<char>, i: int, n: NoteView)
    requires
        n.well_formed(),
        at(s, i, enc_note(n)),
    ensures
        p_note(s, i) == Some((n, i + enc_note(n).len())),
{
    reveal(p_note);
    reveal(enc_note);
    let e1 = enc_str(n.title);
    let e2 = enc_str(n.content);
    let e3 = enc_ts_str(n.created_at);
    let e4 = enc_ts_str(n.updated_at);
    let e5 = enc_tags(n.tags);
    assert(enc_note(n) =~= lit_title() + (e1 + (lit_content() + (e2 + (lit_created() + (e3 + (
    lit_updated() + (e4 + (lit_tags() + ((e5 + seq![']']) + seq!['}']))))))))));
    lemma_at_split(
        s,
        i,
        lit_title(),
        e1 + (lit_content() + (e2 + (lit_created() + (e3 + (lit_updated() + (e4 + (lit_tags() + ((e5
            + seq![']']) + seq!['}'])))))))),
    );
    let i1 = i + lit_title().len();
    lemma_at_split(
        s,
        i1,
        e1,
        lit_content() + (e2 + (lit_created() + (e3 + (lit_updated() + (e4 + (lit_tags() + ((e5
            + seq![']']) + seq!['}']))))))),
    );
    lemma_p_string_enc(s, i1, n.title);
    let i2 = i1 + e1.len();
    lemma_at_split(
        s,
        i2,
        lit_content(),
        e2 + (lit_created() + (e3 + (lit_updated() + (e4 + (lit_tags() + ((e5 + seq![']'])
            + seq!['}'])))))),
    );
    let i3 = i2 + lit_content().len();
    lemma_at_split(
        s,
        i3,
        e2,
        lit_created() + (e3 + (lit_updated() + (e4 + (lit_tags() + ((e5 + seq![']'])
            + seq!['}']))))),
    );
    lemma_p_string_enc(s, i3, n.content);
    let i4 = i3 + e2.len();
    lemma_at_split(
        s,
        i4,
        lit_created(),
        e3 + (lit_updated() + (e4 + (lit_tags() + ((e5 + seq![']']) + seq!['}'])))),
    );
    let i5 = i4 + lit_created().len();
    lemma_at_split(
        s,
        i5,
        e3,
        lit_updated() + (e4 + (lit_tags() + ((e5 + seq![']']) + seq!['}']))),
    );
    lemma_p_ts_quoted_enc(s, i5, n.created_at);
    let i6 = i5 + e3.len();
    lemma_at_split(s, i6, lit_updated(), e4 + (lit_tags() + ((e5 + seq![']']) + seq!['}'])));
    let i7 = i6 + lit_updated().len();
    lemma_at_split(s, i7, e4, lit_tags() + ((e5 + seq![']']) + seq!['}']));
    lemma_p_ts_quoted_enc(s, i7, n.updated_at);
    let i8 = i7 + e4.len();
    lemma_at_split(s, i8, lit_tags(), (e5 + seq![']']) + seq!['}']);
    let i9 = i8 + lit_tags().len();
    lemma_at_split(s, i9, e5 + seq![']'], seq!['}']);
    lemma_p_tags_arr_enc(s, i9, n.tags);
    let i10 = i9 + e5.len() + 1;
    lemma_at_char(s, i10, seq!['}'], 0);
    assert(p_note(s, i) is Some);
    let got = (p_note(s, i)->Some_0).0;
    assert(got == n);
}

/// The encoder and decoder are inverse: decoding an encoded collection of
/// well-formed notes yields exactly that collection.
#[verifier::rlimit(100)]
#[verifier::spinoff_prover]
pub proof fn lemma_encode_decode_roundtrip(ns: Seq<NoteView>)
    requires
        forall|k: int| 0 <= k < ns.len() ==> (#[trigger] ns[k]).well_formed(),
    ensures
        spec_decode_notes(spec_encode_notes(ns)) == Some(ns),
{
    let s = spec_encode_notes(ns);
    assert(s[0] == '[');
    if ns.len() == 0 {
        assert(s =~= seq!['[', ']']);
        assert(spec_decode_notes(s) == Some(Seq::<NoteView>::empty()));
        assert(ns =~= Seq::<NoteView>::empty());
    } else {
        assert(s =~= seq!['['] + (enc_note_list(ns) + seq![']']));
        assert(at(s, 1, enc_note_list(ns) + seq![']'])) by {
            assert(s.subrange(1, 1 + (enc_note_list(ns) + seq![']']).len() as int) =~= enc_note_list(
                ns,
            ) + seq![']']);
        }
        lemma_p_note_list_enc(s, 1, ns);
        assert(enc_note_list(ns).len() > 0 && enc_note_list(ns)[0] == '{') by {
            reveal(enc_note);
            assert(enc_note(ns[0]).len() > 0);
            assert(enc_note(ns[0])[0] == '{');
        }
        lemma_at_char(s, 1, enc_note_list(ns) + seq![']'], 0);
        assert(s[1] == '{');
        let j: int = 1 + enc_note_list(ns).len() as int;
        assert(s[j] == ']') by {
            lemma_at_char(s, 1, enc_note_list(ns) + seq![']'], enc_note_list(ns).len() as int);
        }
        assert(j + 1 == s.len());
    }
}

proof fn lemma_regroup4<A>(a: Seq<A>, b: Seq<A>, c: Seq<A>, d: Seq<A>)
    ensures
        a + b + c + d == a + (b + (c + d)),
{
    assert(a + b + c + d =~= a + (b + (c + d)));
}

#[verifier::rlimit(100)]
#[verifier::spinoff_prover]
proof fn lemma_p_note_list_enc(s: Seq<char>, i: int, ns: Seq<NoteView>)
    requires
        ns.len() >= 1,
        forall|k: int| 0 <= k < ns.len() ==> (#[trigger] ns[k]).well_formed(),
        at(s, i, enc_note_list(ns) + seq![']']),
    ensures
        p_note_list(s, i) == Some((ns, i + enc_note_list(ns).len())),
    decreases ns.len(),
{
    if ns.len() == 1 {
        let n = ns[0];
        assert(enc_note_list(ns) == enc_note(n));
        lemma_at_split(s, i, enc_note(n), seq![']']);
        lemma_p_note_enc(s, i, n);
        let j = i + enc_note(n).len();
        lemma_at_char(s, j, seq![']'], 0);
        assert(seq![n] =~= ns);
    } else {
        let n = ns[0];
        let rest = ns.drop_first();
        assert forall|k: int| 0 <= k < rest.len() implies (#[trigger] rest[k]).well_formed() by {
            assert(rest[k] == ns[k + 1]);
        }
        assert(enc_note_list(ns) == enc_note(n) + seq![','] + enc_note_list(rest));
        lemma_regroup4(enc_note(n), seq![','], enc_note_list(rest), seq![']']);
        assert(enc_note_list(ns) + seq![']'] == enc_note(n) + (seq![','] + (enc_note_list(rest)
            + seq![']'])));
        lemma_at_split(s, i, enc_note(n), seq![','] + (enc_note_list(rest) + seq![']']));
        lemma_p_note_enc(s, i, n);
        let j = i + enc_note(n).len();
        lemma_at_split(s, j, seq![','], enc_note_list(rest) + seq![']']);
        lemma_at_char(s, j, seq![','], 0);
        lemma_p_note_list_enc(s, j + 1, rest);
        assert(seq![n] + rest =~= ns);
    }
}

} // verus!
