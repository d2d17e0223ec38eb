//! Rendering values as JSON and SQL text.
//!
//! The ingestion pipeline serializes a structured content map as a JSON
//! object when a file carries no pre-packed payload, projects lightweight
//! cache metadata as a JSON object, and escapes text that is spliced into
//! SQL statements. Every renderer's output is pinned exactly by a spec
//! function.

use vstd::prelude::*;
use vstd::string::StrSliceExecFns;
use vstd::string::StringExecFns;
use crate::fingerprint::{hex_digit, hex_digit_char};
use crate::text::{dec_of, u64_dec};

verus! {

/// How one character is written inside a JSON string: quote and backslash
/// get a backslash, control characters a four-digit escape, the rest stand
/// as they are.
pub open spec fn esc_char(c: char) -> Seq<char> {
    if c == '"' {
        seq!['\\', '"']
    } else if c == '\\' {
        seq!['\\', '\\']
    } else if (c as int) < 0x20 {
        seq!['\\', 'u', '0', '0', hex_digit((c as int) / 16), hex_digit((c as int) % 16)]
    } else {
        seq![c]
    }
}

/// A character sequence with every character JSON-escaped.
pub open spec fn json_escaped(s: Seq<char>) -> Seq<char>
    decreases s.len(),
{
    if s.len() == 0 {
        Seq::empty()
    } else {
        json_escaped(s.drop_last()) + esc_char(s.last())
    }
}

/// A JSON string: the escaped characters between double quotes.
pub open spec fn json_string_of(s: Seq<char>) -> Seq<char> {
    seq!['"'] + json_escaped(s) + seq!['"']
}

/// One `"key":"value"` pair of a JSON object.
pub open spec fn json_kv(k: Seq<char>, v: Seq<char>) -> Seq<char> {
    json_string_of(k) + seq![':'] + json_string_of(v)
}

/// The comma-separated pairs of a JSON object, in entry order.
pub open spec fn json_object_body(entries: Seq<(Seq<char>, Seq<char>)>) -> Seq<char>
    decreases entries.len(),
{
    if entries.len() == 0 {
        Seq::empty()
    } else if entries.len() == 1 {
        json_kv(entries[0].0, entries[0].1)
    } else {
        json_object_body(entries.drop_last()) + seq![','] + json_kv(
            entries.last().0,
            entries.last().1,
        )
    }
}

/// A JSON object of string keys and string values, in entry order.
pub open spec fn json_object_of(entries: Seq<(Seq<char>, Seq<char>)>) -> Seq<char> {
    seq!['{'] + json_object_body(entries) + seq!['}']
}

/// The views of a sequence of owned entries.
pub open spec fn entry_views(entries: Seq<(String, String)>) -> Seq<(Seq<char>, Seq<char>)> {
    entries.map_values(|e: (String, String)| (e.0@, e.1@))
}

/// Append the JSON escaping of a text to a string.
fn append_escaped(out: &mut String, s: &str)
    ensures
        final(out)@ == old(out)@ + json_escaped(s@),
{
    let n = s.unicode_len();
    proof {
        assert(s@.take(0) =~= Seq::<char>::empty());
        assert(old(out)@ + json_escaped(s@.take(0)) =~= old(out)@);
    }
    let mut i: usize = 0;
    while i < n
        invariant
            n == s@.len(),
            i <= n,
            out@ == old(out)@ + json_escaped(s@.take(i as int)),
        decreases n - i,
    {
        let ghost before = out@;
        let c = s.get_char(i);
        if c == '"' {
            out.push('\\');
            out.push('"');
        } else if c == '\\' {
            out.push('\\');
            out.push('\\');
        } else if (c as u32) < 0x20 {
            let v = c as u32;
            out.push('\\');
            out.push('u');
            out.push('0');
            out.push('0');
            out.push(hex_digit_char(v / 16));
            out.push(hex_digit_char(v % 16));
        } else {
            out.push(c);
        }
        proof {
            assert(out@ =~= before + esc_char(s@[i as int]));
            assert(s@.take(i + 1).drop_last() =~= s@.take(i as int));
            assert(s@.take(i + 1).last() == s@[i as int]);
            assert(out@ =~= old(out)@ + json_escaped(s@.take(i + 1)));
        }
        i += 1;
    }
    proof {
        assert(s@.take(n as int) =~= s@);
    }
}

/// Append a JSON string rendering of a text to a string.
fn append_json_string(out: &mut String, s: &str)
    ensures
        final(out)@ == old(out)@ + json_string_of(s@),
{
    let ghost start = out@;
    out.push('"');
    append_escaped(out, s);
    out.push('"');
    proof {
        assert(out@ =~= start + json_string_of(s@));
    }
}

/// Render a key/value map as a JSON object, in entry order.
pub fn render_string_object(entries: &Vec<(String, String)>) -> (r: String)
    ensures
        r@ == json_object_of(entry_views(entries@)),
{
    let mut out = String::new();
    out.push('{');
    let n = entries.len();
    proof {
        assert(entry_views(entries@).take(0) =~= entry_views(entries@.take(0)));
        assert(out@ =~= seq!['{'] + json_object_body(entry_views(entries@).take(0)));
    }
    let mut i: usize = 0;
    while i < n
        invariant
            n == entries@.len(),
            i <= n,
            out@ == seq!['{'] + json_object_body(entry_views(entries@).take(i as int)),
        decreases n - i,
    {
        let ghost before = out@;
        if i > 0 {
            out.push(',');
        }
        append_json_string(&mut out, entries[i].0.as_str());
        out.push(':');
        append_json_string(&mut out, entries[i].1.as_str());
        proof {
            let evs = entry_views(entries@);
            assert(evs[i as int] == (entries@[i as int].0@, entries@[i as int].1@));
            assert(evs.take(i + 1).drop_last() =~= evs.take(i as int));
            assert(evs.take(i + 1).last() == evs[i as int]);
            if i == 0 {
                assert(out@ =~= seq!['{'] + json_object_body(evs.take(1)));
            } else {
                assert(out@ =~= before + seq![','] + json_kv(evs[i as int].0, evs[i as int].1));
                assert(out@ =~= seq!['{'] + json_object_body(evs.take(i + 1)));
            }
        }
        i += 1;
    }
    out.push('}');
    proof {
        assert(entry_views(entries@).take(n as int) =~= entry_views(entries@));
        assert(out@ =~= json_object_of(entry_views(entries@)));
    }
    out
}

/// The advisory cache projection of one ingested file: a small JSON object
/// carrying the identity, key count, source fingerprint, and update time.
pub open spec fn cache_metadata_of(
    project: Seq<char>,
    lang: Seq<char>,
    filename: Seq<char>,
    keys: nat,
    source_hash: Seq<char>,
    now: Seq<char>,
) -> Seq<char> {
    "{\"projectId\":"@ + json_string_of(project) + ",\"lang\":"@ + json_string_of(lang)
        + ",\"filename\":"@ + json_string_of(filename) + ",\"keys\":"@ + dec_of(keys)
        + ",\"sourceHash\":"@ + json_string_of(source_hash) + ",\"updatedAt\":"@ + json_string_of(
        now,
    ) + "}"@
}

/// Render the advisory cache projection.
pub fn render_cache_metadata(
    project: &str,
    lang: &str,
    filename: &str,
    keys: u64,
    source_hash: &str,
    now: &str,
) -> (r: String)
    ensures
        r@ == cache_metadata_of(project@, lang@, filename@, keys as nat, source_hash@, now@),
{
    let mut out = String::new();
    out.append("{\"projectId\":");
    append_json_string(&mut out, project);
    out.append(",\"lang\":");
    append_json_string(&mut out, lang);
    out.append(",\"filename\":");
    append_json_string(&mut out, filename);
    out.append(",\"keys\":");
    let num = u64_dec(keys);
    out.append(num.as_str());
    out.append(",\"sourceHash\":");
    append_json_string(&mut out, source_hash);
    out.append(",\"updatedAt\":");
    append_json_string(&mut out, now);
    out.append("}");
    proof {
        assert(out@ =~= cache_metadata_of(
            project@,
            lang@,
            filename@,
            keys as nat,
            source_hash@,
            now@,
        ));
    }
    out
}

/// SQL string-literal escaping: every single quote is doubled.
pub open spec fn sql_escaped(s: Seq<char>) -> Seq<char>
    decreases s.len(),
{
    if s.len() == 0 {
        Seq::empty()
    } else {
        sql_escaped(s.drop_last()) + (if s.last() == '\'' {
            seq!['\'', '\'']
        } else {
            seq![s.last()]
        })
    }
}

/// Append the SQL escaping of a text to a string.
pub fn append_sql_escaped(out: &mut String, s: &str)
    ensures
        final(out)@ == old(out)@ + sql_escaped(s@),
{
    let n = s.unicode_len();
    proof {
        assert(s@.take(0) =~= Seq::<char>::empty());
        assert(old(out)@ + sql_escaped(s@.take(0)) =~= old(out)@);
    }
    let mut i: usize = 0;
    while i < n
        invariant
            n == s@.len(),
            i <= n,
            out@ == old(out)@ + sql_escaped(s@.take(i as int)),
        decreases n - i,
    {
        let ghost before = out@;
        let c = s.get_char(i);
        if c == '\'' {
            out.push('\'');
            out.push('\'');
        } else {
            out.push(c);
        }
        proof {
            assert(s@.take(i + 1).drop_last() =~= s@.take(i as int));
            assert(s@.take(i + 1).last() == s@[i as int]);
            assert(out@ =~= old(out)@ + sql_escaped(s@.take(i + 1)));
        }
        i += 1;
    }
    proof {
        assert(s@.take(n as int) =~= s@);
    }
}

} // verus!
