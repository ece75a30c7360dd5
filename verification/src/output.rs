//! How a task is shown in the chat: its status card and its output, cleaned of
//! the bot's own lines, escaped for Telegram's HTML mode and cut into messages.
use vstd::prelude::*;
use crate::models::{TaskSnapshot, TaskStatus, TaskView};
use crate::runner::{lowercase, to_lowercase};
use crate::task_service::{mode_label, mode_text};
use crate::runner::views;
use crate::text::{
    byte_boundary_index, byte_len, chars_of, extend_chars, has_prefix, is_byte_boundary, join,
    join_parts, lemma_utf8_len_bounds, lemma_utf8_prefix_strict, lines, lines_of, push_str,
    slice_of, starts_with, string_from, trim, trim_bounds, utf8_len,
};
use crate::util::{fit_telegram_text, fit_text, strip_ansi, strip_ansi_from};

verus! {

broadcast use vstd::string::group_string_axioms;

/// Longest text the bot sends in one message, in characters.
pub const MAX_TELEGRAM_TEXT: usize = 3900;

/// Largest piece of output streamed in one message, in bytes.
pub const OUTPUT_STREAM_CHUNK: usize = 2800;

/// `html_escape::encode_text`: '&', '<' and '>' replaced by their entities.
pub open spec fn html_escaped_char(c: char) -> Seq<char> {
    if c == '&' {
        "&amp;"@
    } else if c == '<' {
        "&lt;"@
    } else if c == '>' {
        "&gt;"@
    } else {
        seq![c]
    }
}

pub open spec fn html_escaped(s: Seq<char>) -> Seq<char>
    decreases s.len(),
{
    if s.len() == 0 {
        Seq::empty()
    } else {
        html_escaped(s.drop_last()) + html_escaped_char(s.last())
    }
}

/// Escapes text for Telegram's HTML mode with `html_escape::encode_text`, which
/// replaces '&', '<' and '>' by "&amp;", "&lt;" and "&gt;" and keeps every other
/// character.
#[verifier::external_body]
fn encode_html_text(text: &str) -> (r: String)
    ensures
        r@ == html_escaped(text@),
{
    html_escape::encode_text(text).into_owned()
}

/// The text with every `c` removed (`s.replace(c, "")`).
pub open spec fn without_char(s: Seq<char>, c: char) -> Seq<char>
    decreases s.len(),
{
    if s.len() == 0 {
        Seq::empty()
    } else if s.last() == c {
        without_char(s.drop_last(), c)
    } else {
        without_char(s.drop_last(), c).push(s.last())
    }
}

/// Index of the first character at or after `i` that is not `c`.
pub open spec fn first_other_from(s: Seq<char>, c: char, i: int) -> int
    decreases s.len() - i,
{
    if i >= s.len() {
        s.len() as int
    } else if s[i] == c {
        first_other_from(s, c, i + 1)
    } else {
        i
    }
}

/// `s.trim_start_matches(c)`.
pub open spec fn trim_leading(s: Seq<char>, c: char) -> Seq<char> {
    s.subrange(first_other_from(s, c, 0), s.len() as int)
}

/// A line of terminal output as the bot shows it: escape sequences and carriage
/// returns removed, trimmed, and a leading run of '%' removed with the whitespace after it.
pub open spec fn cleaned_line(line: Seq<char>) -> Seq<char> {
    let t = trim(without_char(strip_ansi_from(vstd::utf8::encode_utf8(line), 0), '\r'));
    if t.len() > 0 && t[0] == '%' {
        trim(trim_leading(t, '%'))
    } else {
        t
    }
}

fn remove_char(v: &[char], c: char) -> (r: Vec<char>)
    ensures
        r@ == without_char(v@, c),
{
    let mut out: Vec<char> = Vec::new();
    let mut i: usize = 0;
    while i < v.len()
        invariant
            i <= v@.len(),
            out@ == without_char(v@.take(i as int), c),
        decreases v@.len() - i,
    {
        proof {
            assert(v@.take(i + 1).drop_last() =~= v@.take(i as int));
        }
        if v[i] != c {
            out.push(v[i]);
        }
        i = i + 1;
    }
    proof {
        assert(v@.take(v@.len() as int) =~= v@);
    }
    out
}

fn skip_leading(v: &[char], c: char) -> (r: usize)
    ensures
        r == first_other_from(v@, c, 0),
        r <= v@.len(),
{
    let mut i: usize = 0;
    while i < v.len() && v[i] == c
        invariant
            i <= v@.len(),
            first_other_from(v@, c, i as int) == first_other_from(v@, c, 0),
        decreases v@.len() - i,
    {
        i = i + 1;
    }
    i
}

pub fn clean_output_line(line: &str) -> (r: String)
    ensures
        r@ == cleaned_line(line@),
{
    let stripped = strip_ansi(line);
    let sv = chars_of(stripped.as_str());
    let no_cr = remove_char(sv.as_slice(), '\r');
    let (a, b) = trim_bounds(no_cr.as_slice());
    let t = slice_of(no_cr.as_slice(), a, b);
    if t.len() > 0 && t[0] == '%' {
        let k = skip_leading(t, '%');
        let rest = slice_of(t, k, t.len());
        proof {
            assert(rest@ == trim_leading(t@, '%'));
        }
        let (a2, b2) = trim_bounds(rest);
        string_from(slice_of(rest, a2, b2))
    } else {
        string_from(t)
    }
}

/// Beginnings (in lower case) of the lines the bot writes into a task's output itself.
pub const NOISE_PREFIXES: [&'static str; 9] = [
    "project:",
    "task:",
    "agent:",
    "model strategy:",
    "--- running with model:",
    "completed with model",
    "completed via fallback model",
    "failed with model",
    "task cancelled",
];

/// An empty line, or one that lower-cased starts like a line of the bot's own.
pub open spec fn is_noise(line: Seq<char>) -> bool {
    line.len() == 0 || exists|i: int| 0 <= i < 9 && has_prefix(lowercase(line), #[trigger] NOISE_PREFIXES@[i]@)
}

pub fn is_noise_output_line(line: &str) -> (r: bool)
    ensures
        r == is_noise(line@),
{
    let cv = chars_of(line);
    if cv.len() == 0 {
        return true;
    }
    let lower = to_lowercase(line);
    let lv = chars_of(lower.as_str());
    let mut i: usize = 0;
    while i < 9
        invariant
            i <= 9,
            lv@ == lowercase(line@),
            forall|k: int| 0 <= k < i ==> !has_prefix(lowercase(line@), #[trigger] NOISE_PREFIXES@[k]@),
        decreases 9 - i,
    {
        let pv = chars_of(NOISE_PREFIXES[i]);
        if starts_with(lv.as_slice(), pv.as_slice()) {
            return true;
        }
        i = i + 1;
    }
    false
}

/// The cleaned lines that are not noise, in order.
pub open spec fn kept_lines(ls: Seq<Seq<char>>) -> Seq<Seq<char>>
    decreases ls.len(),
{
    if ls.len() == 0 {
        Seq::empty()
    } else {
        let rest = kept_lines(ls.drop_last());
        let c = cleaned_line(ls.last());
        if is_noise(c) {
            rest
        } else {
            rest.push(c)
        }
    }
}

/// A task's output as the chat sees it: every line cleaned, the bot's own and the
/// empty lines left out, joined by newlines and trimmed.
pub open spec fn normalized_text(output: Seq<char>) -> Seq<char> {
    trim(join(kept_lines(lines(output)), "\n"@))
}

pub fn normalized_output(output: &str) -> (r: String)
    ensures
        r@ == normalized_text(output@),
{
    let ov = chars_of(output);
    let ls = lines_of(ov.as_slice());
    let ghost all = lines(output@);
    let mut kept: Vec<Vec<char>> = Vec::new();
    let mut i: usize = 0;
    while i < ls.len()
        invariant
            i <= ls@.len(),
            ls@.len() == all.len(),
            forall|k: int| 0 <= k < ls@.len() ==> (#[trigger] ls@[k])@ == all[k],
            kept@.map_values(|p: Vec<char>| p@) == kept_lines(all.take(i as int)),
        decreases ls@.len() - i,
    {
        proof {
            assert(all.take(i + 1).drop_last() =~= all.take(i as int));
            assert(all.take(i + 1).last() == ls@[i as int]@);
        }
        let line = string_from(ls[i].as_slice());
        let c = clean_output_line(line.as_str());
        if !is_noise_output_line(c.as_str()) {
            let ghost before = kept@;
            kept.push(chars_of(c.as_str()));
            proof {
                assert(kept@.map_values(|p: Vec<char>| p@) =~= before.map_values(|p: Vec<char>| p@).push(c@));
            }
        }
        i = i + 1;
    }
    proof {
        assert(all.take(ls@.len() as int) =~= all);
    }
    let nl = ['\n'];
    proof {
        assert(nl@ =~= "\n"@) by {
            reveal_strlit("\n");
        }
    }
    let joined = join_parts(&kept, nl.as_slice());
    let (a, b) = trim_bounds(joined.as_slice());
    string_from(slice_of(joined.as_slice(), a, b))
}

/// The model a task is shown with: the one it last ran with, else its configured one.
pub open spec fn shown_model(t: TaskView) -> Seq<char> {
    match t.last_run_model {
        Some(m) => m,
        None => t.model,
    }
}

/// The closing line for a task in its status.
pub open spec fn completion_line(t: TaskView) -> Seq<char> {
    match t.status {
        TaskStatus::Success => "Completed with model "@ + shown_model(t) + "."@,
        TaskStatus::Failed => "Failed with model "@ + shown_model(t) + "."@,
        TaskStatus::Cancelled => "Task cancelled."@,
        TaskStatus::Running => "Running with model "@ + shown_model(t) + "..."@,
        TaskStatus::Idle => "Idle."@,
    }
}

fn push_shown_model(v: &mut Vec<char>, snapshot: &TaskSnapshot)
    ensures
        final(v)@ == old(v)@ + shown_model(snapshot@),
{
    match &snapshot.last_run_model {
        Some(m) => push_str(v, m.as_str()),
        None => push_str(v, snapshot.model.as_str()),
    }
}

pub fn completion_text(snapshot: &TaskSnapshot) -> (r: String)
    ensures
        r@ == completion_line(snapshot@),
{
    let mut v: Vec<char> = Vec::new();
    match snapshot.status {
        TaskStatus::Success => {
            push_str(&mut v, "Completed with model ");
            push_shown_model(&mut v, snapshot);
            push_str(&mut v, ".");
        },
        TaskStatus::Failed => {
            push_str(&mut v, "Failed with model ");
            push_shown_model(&mut v, snapshot);
            push_str(&mut v, ".");
        },
        TaskStatus::Cancelled => {
            push_str(&mut v, "Task cancelled.");
        },
        TaskStatus::Running => {
            push_str(&mut v, "Running with model ");
            push_shown_model(&mut v, snapshot);
            push_str(&mut v, "...");
        },
        TaskStatus::Idle => {
            push_str(&mut v, "Idle.");
        },
    }
    proof {
        assert(v@ =~= completion_line(snapshot@));
    }
    string_from(v.as_slice())
}

/// The name a status is printed with.
pub open spec fn status_label(s: TaskStatus) -> Seq<char> {
    match s {
        TaskStatus::Idle => "Idle"@,
        TaskStatus::Running => "Running"@,
        TaskStatus::Success => "Success"@,
        TaskStatus::Failed => "Failed"@,
        TaskStatus::Cancelled => "Cancelled"@,
    }
}

fn status_text(s: TaskStatus) -> (r: &'static str)
    ensures
        r@ == status_label(s),
{
    match s {
        TaskStatus::Idle => "Idle",
        TaskStatus::Running => "Running",
        TaskStatus::Success => "Success",
        TaskStatus::Failed => "Failed",
        TaskStatus::Cancelled => "Cancelled",
    }
}

/// The status card of a task: status, project, agent, mode and model, then the
/// closing line (or a streaming note while it runs) as preformatted HTML; the
/// last `MAX_TELEGRAM_TEXT` characters of it.
pub open spec fn status_card(t: TaskView) -> Seq<char> {
    fit_text(full_status_card(t), MAX_TELEGRAM_TEXT as nat)
}

/// The status card before it is cut to the message size.
pub open spec fn full_status_card(t: TaskView) -> Seq<char> {
    let header = "Status: "@ + status_label(t.status) + "\nProject: "@ + t.project + "\nAgent: "@
        + t.agent + "\nMode: "@ + mode_label(t.mode) + "\nModel: "@ + shown_model(t);
    let body = if t.status == TaskStatus::Running {
        "Streaming output..."@
    } else {
        completion_line(t)
    };
    header + "\n\n<pre>"@ + html_escaped(body) + "</pre>"@
}

pub fn task_to_text(snapshot: &TaskSnapshot) -> (r: String)
    ensures
        r@ == status_card(snapshot@),
{
    let t = snapshot;
    let mut v: Vec<char> = Vec::new();
    push_str(&mut v, "Status: ");
    push_str(&mut v, status_text(t.status));
    push_str(&mut v, "\nProject: ");
    push_str(&mut v, t.project.as_str());
    push_str(&mut v, "\nAgent: ");
    push_str(&mut v, t.agent.as_str());
    push_str(&mut v, "\nMode: ");
    let m = mode_text(t.mode);
    push_str(&mut v, m.as_str());
    push_str(&mut v, "\nModel: ");
    push_shown_model(&mut v, t);
    let body = if t.status == TaskStatus::Running {
        crate::runner::owned("Streaming output...")
    } else {
        completion_text(t)
    };
    push_str(&mut v, "\n\n<pre>");
    let escaped = encode_html_text(body.as_str());
    push_str(&mut v, escaped.as_str());
    push_str(&mut v, "</pre>");
    let card = string_from(v.as_slice());
    proof {
        assert(card@ =~= full_status_card(t@));
    }
    fit_telegram_text(card.as_str(), MAX_TELEGRAM_TEXT)
}

/// Where a line longer than `max` bytes is cut after its first `max` bytes: the
/// number of characters those bytes hold.
pub open spec fn cut_at(s: Seq<char>, max: nat) -> int {
    choose|k: int| 0 < k <= s.len() && #[trigger] utf8_len(s.take(k)) == max
}

/// Every cut of `s` into pieces of `max` bytes falls on a character boundary
/// (elsewhere slicing the line would panic, and with `max` zero it would not end).
pub open spec fn pieces_cut_ok(s: Seq<char>, max: nat) -> bool
    decreases s.len(),
{
    if s.len() == 0 || utf8_len(s) <= max {
        true
    } else {
        let k = cut_at(s, max);
        &&& 0 < k <= s.len()
        &&& utf8_len(s.take(k)) == max
        &&& pieces_cut_ok(s.skip(k), max)
    }
}

/// `s` cut into pieces of `max` bytes, the last one possibly shorter.
pub open spec fn byte_pieces(s: Seq<char>, max: nat) -> Seq<Seq<char>>
    decreases s.len(),
{
    if s.len() == 0 {
        Seq::empty()
    } else if utf8_len(s) <= max {
        seq![s]
    } else {
        let k = cut_at(s, max);
        if 0 < k <= s.len() {
            seq![s.take(k)] + byte_pieces(s.skip(k), max)
        } else {
            seq![s]
        }
    }
}

/// The output can be cut into messages of `max` bytes: every line longer than
/// that can be cut at character boundaries.
pub open spec fn chunkable(text: Seq<char>, max: nat) -> bool {
    forall|i: int| 0 <= i < lines(text).len() ==> pieces_cut_ok(#[trigger] lines(text)[i], max)
}

/// Left-to-right scan behind `split_output_chunks`: the messages completed so far
/// and the one being filled. A line longer than `max` bytes ends the current
/// message and is cut into pieces of its own; other lines are added to the current
/// message, separated by newlines, while it stays within `max` bytes.
pub open spec fn chunk_scan(ls: Seq<Seq<char>>, max: nat) -> (Seq<Seq<char>>, Seq<char>)
    decreases ls.len(),
{
    if ls.len() == 0 {
        (Seq::empty(), Seq::empty())
    } else {
        let (done, cur) = chunk_scan(ls.drop_last(), max);
        let line = ls.last();
        if utf8_len(line) > max {
            let flushed = if cur.len() > 0 {
                done.push(cur)
            } else {
                done
            };
            (flushed + byte_pieces(line, max), Seq::empty())
        } else {
            let next = if cur.len() == 0 {
                line
            } else {
                cur + "\n"@ + line
            };
            if utf8_len(next) > max {
                (done.push(cur), line)
            } else {
                (done, next)
            }
        }
    }
}

/// The messages a task's output is sent in, each of at most `max` bytes.
pub open spec fn output_chunks(text: Seq<char>, max: nat) -> Seq<Seq<char>> {
    if text.len() == 0 {
        Seq::empty()
    } else {
        let (done, cur) = chunk_scan(lines(text), max);
        if cur.len() > 0 {
            done.push(cur)
        } else {
            done
        }
    }
}

proof fn lemma_cut_unique(s: Seq<char>, max: nat, k: int)
    requires
        0 < k <= s.len(),
        utf8_len(s.take(k)) == max,
        utf8_len(s) > max,
    ensures
        cut_at(s, max) == k,
{
    assert(exists|j: int| 0 < j <= s.len() && #[trigger] utf8_len(s.take(j)) == max) by {
        assert(utf8_len(s.take(k)) == max);
    }
    let c = cut_at(s, max);
    if c < k {
        lemma_utf8_prefix_strict(s, c, k);
    } else if c > k {
        lemma_utf8_prefix_strict(s, k, c);
    }
}

fn push_pieces(chunks: &mut Vec<String>, line: &[char], max: usize)
    requires
        pieces_cut_ok(line@, max as nat),
    ensures
        views(final(chunks)@) == views(old(chunks)@) + byte_pieces(line@, max as nat),
{
    let ghost target = views(chunks@) + byte_pieces(line@, max as nat);
    let mut start: usize = 0;
    proof {
        assert(line@.skip(0) =~= line@);
    }
    while start < line.len()
        invariant
            start <= line@.len(),
            pieces_cut_ok(line@.skip(start as int), max as nat),
            views(chunks@) + byte_pieces(line@.skip(start as int), max as nat) == target,
        decreases line@.len() - start,
    {
        let ghost before = views(chunks@);
        let rest = slice_of(line, start, line.len());
        let ghost r = rest@;
        assert(r == line@.skip(start as int));
        let rest_str = string_from(rest);
        let rlen = byte_len(rest_str.as_str());
        if rlen <= max {
            chunks.push(rest_str);
            proof {
                assert(byte_pieces(r, max as nat) == seq![r]);
                assert(views(chunks@) =~= before.push(r));
                assert(line@.skip(line@.len() as int) =~= Seq::<char>::empty());
                assert(views(chunks@) =~= before + byte_pieces(r, max as nat));
            }
            start = line.len();
        } else {
            let ghost kc = cut_at(r, max as nat);
            proof {
                assert(utf8_len(r.take(kc)) == max);
                lemma_utf8_len_bounds(r.take(kc));
            }
            let found = byte_boundary_index(rest, max);
            let k = match found {
                Some(k) => k,
                None => {
                    proof {
                        assert(is_byte_boundary(r, max as nat)) by {
                            assert(0 <= kc <= r.len() && utf8_len(r.take(kc)) == max);
                        }
                    }
                    return;
                },
            };
            proof {
                if k == 0 {
                    assert(r.take(0) =~= Seq::<char>::empty());
                }
                lemma_cut_unique(r, max as nat, k as int);
            }
            chunks.push(string_from(slice_of(rest, 0, k)));
            proof {
                assert(r.take(k as int) =~= rest@.subrange(0, k as int));
                assert(r.skip(k as int) =~= line@.skip(start + k));
                assert(views(chunks@) =~= before.push(r.take(k as int)));
                assert(byte_pieces(r, max as nat) == seq![r.take(k as int)] + byte_pieces(r.skip(k as int), max as nat));
                assert(views(chunks@) + byte_pieces(r.skip(k as int), max as nat) =~= before + byte_pieces(r, max as nat));
            }
            start = start + k;
        }
    }
    proof {
        assert(line@.skip(start as int) =~= Seq::<char>::empty());
        assert(views(chunks@) + Seq::<Seq<char>>::empty() =~= views(chunks@));
    }
}

pub fn split_output_chunks(text: &str, max: usize) -> (r: Vec<String>)
    requires
        chunkable(text@, max as nat),
    ensures
        views(r@) == output_chunks(text@, max as nat),
{
    let mut chunks: Vec<String> = Vec::new();
    let tv = chars_of(text);
    if tv.len() == 0 {
        proof {
            assert(views(chunks@) =~= Seq::<Seq<char>>::empty());
        }
        return chunks;
    }
    let ls = lines_of(tv.as_slice());
    let ghost all = lines(text@);
    let mut current: Vec<char> = Vec::new();
    let mut i: usize = 0;
    proof {
        assert(views(chunks@) =~= Seq::<Seq<char>>::empty());
    }
    while i < ls.len()
        invariant
            i <= ls@.len(),
            ls@.len() == all.len(),
            all == lines(text@),
            forall|k: int| 0 <= k < ls@.len() ==> (#[trigger] ls@[k])@ == all[k],
            chunkable(text@, max as nat),
            views(chunks@) == chunk_scan(all.take(i as int), max as nat).0,
            current@ == chunk_scan(all.take(i as int), max as nat).1,
        decreases ls@.len() - i,
    {
        proof {
            assert(all.take(i + 1).drop_last() =~= all.take(i as int));
            assert(all.take(i + 1).last() == ls@[i as int]@);
        }
        let line = ls[i].as_slice();
        let line_str = string_from(line);
        let len = byte_len(line_str.as_str());
        if len > max {
            if current.len() > 0 {
                let ghost before = views(chunks@);
                chunks.push(string_from(current.as_slice()));
                proof {
                    assert(views(chunks@) =~= before.push(current@));
                }
                current = Vec::new();
            }
            proof {
                assert(pieces_cut_ok(all[i as int], max as nat));
            }
            push_pieces(&mut chunks, line, max);
        } else {
            let mut next: Vec<char> = Vec::new();
            if current.len() == 0 {
                extend_chars(&mut next, line);
            } else {
                extend_chars(&mut next, current.as_slice());
                push_str(&mut next, "\n");
                extend_chars(&mut next, line);
            }
            let next_str = string_from(next.as_slice());
            let next_len = byte_len(next_str.as_str());
            if next_len > max {
                let ghost before = views(chunks@);
                chunks.push(string_from(current.as_slice()));
                proof {
                    assert(views(chunks@) =~= before.push(current@));
                }
                current = Vec::new();
                extend_chars(&mut current, line);
                proof {
                    assert(current@ =~= line@);
                }
            } else {
                current = next;
            }
        }
        i = i + 1;
    }
    proof {
        assert(all.take(ls@.len() as int) =~= all);
    }
    if current.len() > 0 {
        let ghost before = views(chunks@);
        chunks.push(string_from(current.as_slice()));
        proof {
            assert(views(chunks@) =~= before.push(current@));
        }
    }
    chunks
}

/// Every message is non-empty and at most `max` bytes long.
pub open spec fn all_fit(cs: Seq<Seq<char>>, max: nat) -> bool {
    forall|i: int| 0 <= i < cs.len() ==> (#[trigger] cs[i]).len() > 0 && utf8_len(cs[i]) <= max
}

proof fn lemma_pieces_fit(s: Seq<char>, max: nat)
    requires
        pieces_cut_ok(s, max),
    ensures
        all_fit(byte_pieces(s, max), max),
    decreases s.len(),
{
    if s.len() > 0 && utf8_len(s) > max {
        let k = cut_at(s, max);
        lemma_pieces_fit(s.skip(k), max);
        let rest = byte_pieces(s.skip(k), max);
        assert forall|i: int| 0 <= i < byte_pieces(s, max).len() implies (#[trigger] byte_pieces(s, max)[i]).len() > 0
            && utf8_len(byte_pieces(s, max)[i]) <= max by {
            if i > 0 {
                assert(byte_pieces(s, max)[i] == rest[i - 1]);
            }
        }
    }
}

proof fn lemma_scan_fits(ls: Seq<Seq<char>>, max: nat)
    requires
        forall|i: int| 0 <= i < ls.len() ==> pieces_cut_ok(#[trigger] ls[i], max),
    ensures
        all_fit(chunk_scan(ls, max).0, max),
        utf8_len(chunk_scan(ls, max).1) <= max,
    decreases ls.len(),
{
    if ls.len() > 0 {
        lemma_scan_fits(ls.drop_last(), max);
        let (done, cur) = chunk_scan(ls.drop_last(), max);
        let line = ls.last();
        assert(pieces_cut_ok(ls[ls.len() - 1], max));
        if utf8_len(line) > max {
            lemma_pieces_fit(line, max);
            let flushed = if cur.len() > 0 {
                done.push(cur)
            } else {
                done
            };
            let ps = byte_pieces(line, max);
            assert forall|i: int| 0 <= i < (flushed + ps).len() implies (#[trigger] (flushed + ps)[i]).len() > 0
                && utf8_len((flushed + ps)[i]) <= max by {
                if i >= flushed.len() {
                    assert((flushed + ps)[i] == ps[i - flushed.len()]);
                }
            }
            assert(utf8_len(Seq::<char>::empty()) == 0);
        } else if cur.len() > 0 {
            let next = cur + "\n"@ + line;
            if utf8_len(next) > max {
                assert forall|i: int| 0 <= i < done.push(cur).len() implies (#[trigger] done.push(cur)[i]).len() > 0
                    && utf8_len(done.push(cur)[i]) <= max by {
                    if i < done.len() {
                        assert(done.push(cur)[i] == done[i]);
                    }
                }
            }
        } else {
            assert(utf8_len(cur) == 0) by {
                assert(cur.len() == 0);
            }
        }
    }
}

/// Every message the output is cut into is non-empty and holds at most `max` bytes.
pub proof fn law_chunks_fit(text: Seq<char>, max: nat)
    requires
        chunkable(text, max),
    ensures
        all_fit(output_chunks(text, max), max),
{
    if text.len() > 0 {
        let ls = lines(text);
        assert forall|i: int| 0 <= i < ls.len() implies pieces_cut_ok(#[trigger] ls[i], max) by {
            assert(pieces_cut_ok(lines(text)[i], max));
        }
        lemma_scan_fits(ls, max);
        let (done, cur) = chunk_scan(ls, max);
        if cur.len() > 0 {
            assert forall|i: int| 0 <= i < done.push(cur).len() implies (#[trigger] done.push(cur)[i]).len() > 0
                && utf8_len(done.push(cur)[i]) <= max by {
                if i < done.len() {
                    assert(done.push(cur)[i] == done[i]);
                }
            }
        }
    }
}

fn pieces_ok(line: &[char], max: usize) -> (r: bool)
    ensures
        r == pieces_cut_ok(line@, max as nat),
{
    let mut start: usize = 0;
    proof {
        assert(line@.skip(0) =~= line@);
    }
    while start < line.len()
        invariant
            start <= line@.len(),
            pieces_cut_ok(line@, max as nat) == pieces_cut_ok(line@.skip(start as int), max as nat),
        decreases line@.len() - start,
    {
        let rest = slice_of(line, start, line.len());
        let ghost r = rest@;
        assert(r == line@.skip(start as int));
        let rest_str = string_from(rest);
        let rlen = byte_len(rest_str.as_str());
        if rlen <= max {
            return true;
        }
        match byte_boundary_index(rest, max) {
            None => {
                proof {
                    let kc = cut_at(r, max as nat);
                    if 0 < kc <= r.len() && utf8_len(r.take(kc)) == max {
                        assert(is_byte_boundary(r, max as nat));
                    }
                }
                return false;
            },
            Some(k) => {
                if k == 0 {
                    proof {
                        assert(r.take(0) =~= Seq::<char>::empty());
                        let kc = cut_at(r, max as nat);
                        if 0 < kc <= r.len() {
                            lemma_utf8_prefix_strict(r, 0, kc);
                        }
                    }
                    return false;
                }
                proof {
                    lemma_cut_unique(r, max as nat, k as int);
                    assert(r.skip(k as int) =~= line@.skip(start + k));
                }
                start = start + k;
            },
        }
    }
    proof {
        assert(line@.skip(start as int) =~= Seq::<char>::empty());
    }
    true
}

/// Whether `split_output_chunks` can cut this text into messages of `max` bytes.
pub fn can_split_output(text: &str, max: usize) -> (r: bool)
    ensures
        r == chunkable(text@, max as nat),
{
    let tv = chars_of(text);
    let ls = lines_of(tv.as_slice());
    let mut i: usize = 0;
    while i < ls.len()
        invariant
            i <= ls@.len(),
            ls@.len() == lines(text@).len(),
            forall|k: int| 0 <= k < ls@.len() ==> (#[trigger] ls@[k])@ == lines(text@)[k],
            forall|k: int| 0 <= k < i ==> pieces_cut_ok(#[trigger] lines(text@)[k], max as nat),
        decreases ls@.len() - i,
    {
        if !pieces_ok(ls[i].as_slice(), max) {
            return false;
        }
        i = i + 1;
    }
    true
}

/// The pieces of output shown while a task is followed: the messages of its
/// normalized output, the last one marked with a cursor while the task runs; when
/// there is no output, a waiting note while it runs, else its closing line.
pub open spec fn stream_pieces(t: TaskView) -> Seq<Seq<char>> {
    let out = normalized_text(t.output);
    if out.len() == 0 {
        if t.status == TaskStatus::Running {
            seq!["Waiting for output...\n\n\u{258d}"@]
        } else {
            seq![completion_line(t)]
        }
    } else {
        let c = output_chunks(out, OUTPUT_STREAM_CHUNK as nat);
        if t.status == TaskStatus::Running && c.len() > 0 {
            c.update(c.len() - 1, c.last() + "\n\n\u{258d}"@)
        } else {
            c
        }
    }
}

/// The live output message of a task: its pieces joined by blank lines, escaped and
/// preformatted.
pub open spec fn live_output(t: TaskView) -> Seq<char> {
    "<pre>"@ + html_escaped(join(stream_pieces(t), "\n\n"@)) + "</pre>"@
}

/// The output of a task can be shown: its normalized output can be cut into messages.
pub open spec fn showable(t: TaskView) -> bool {
    chunkable(normalized_text(t.output), OUTPUT_STREAM_CHUNK as nat)
}

fn to_char_vecs(v: &Vec<String>) -> (r: Vec<Vec<char>>)
    ensures
        r@.map_values(|p: Vec<char>| p@) == views(v@),
{
    let mut out: Vec<Vec<char>> = Vec::new();
    let mut i: usize = 0;
    while i < v.len()
        invariant
            i <= v@.len(),
            out@.map_values(|p: Vec<char>| p@) == views(v@).take(i as int),
        decreases v@.len() - i,
    {
        let ghost before = out@;
        let c = chars_of(v[i].as_str());
        out.push(c);
        proof {
            assert(out@.map_values(|p: Vec<char>| p@) =~= before.map_values(|p: Vec<char>| p@).push(c@));
            assert(views(v@).take(i + 1) =~= views(v@).take(i as int).push(v@[i as int]@));
        }
        i = i + 1;
    }
    proof {
        assert(views(v@).take(v@.len() as int) =~= views(v@));
    }
    out
}

pub fn render_output(snapshot: &TaskSnapshot) -> (r: String)
    requires
        showable(snapshot@),
    ensures
        r@ == live_output(snapshot@),
{
    let out = normalized_output(snapshot.output.as_str());
    let running = snapshot.status == TaskStatus::Running;
    let mut pieces: Vec<Vec<char>> = Vec::new();
    let ov = chars_of(out.as_str());
    if ov.len() == 0 {
        if running {
            let mut w: Vec<char> = Vec::new();
            push_str(&mut w, "Waiting for output...\n\n\u{258d}");
            pieces.push(w);
        } else {
            let c = completion_text(snapshot);
            pieces.push(chars_of(c.as_str()));
        }
        proof {
            assert(pieces@.map_values(|p: Vec<char>| p@) =~= stream_pieces(snapshot@));
        }
    } else {
        let chunks = split_output_chunks(out.as_str(), OUTPUT_STREAM_CHUNK);
        pieces = to_char_vecs(&chunks);
        let n = pieces.len();
        if running && n > 0 {
            let mut last = pieces.pop().unwrap();
            push_str(&mut last, "\n\n\u{258d}");
            pieces.push(last);
            proof {
                assert(pieces@.map_values(|p: Vec<char>| p@) =~= stream_pieces(snapshot@));
            }
        }
        proof {
            assert(pieces@.map_values(|p: Vec<char>| p@) =~= stream_pieces(snapshot@));
        }
    }
    let sep = ['\n', '\n'];
    proof {
        assert(sep@ =~= "\n\n"@) by {
            reveal_strlit("\n\n");
        }
    }
    let joined = join_parts(&pieces, sep.as_slice());
    let joined_str = string_from(joined.as_slice());
    let escaped = encode_html_text(joined_str.as_str());
    let mut v: Vec<char> = Vec::new();
    push_str(&mut v, "<pre>");
    push_str(&mut v, escaped.as_str());
    push_str(&mut v, "</pre>");
    string_from(v.as_slice())
}

/// The messages with a task's output sent after its status card: each message of
/// the normalized output that is not blank, escaped and preformatted.
pub open spec fn wrapped_chunks(cs: Seq<Seq<char>>) -> Seq<Seq<char>>
    decreases cs.len(),
{
    if cs.len() == 0 {
        Seq::empty()
    } else {
        let rest = wrapped_chunks(cs.drop_last());
        if trim(cs.last()).len() == 0 {
            rest
        } else {
            rest.push("<pre>"@ + html_escaped(cs.last()) + "</pre>"@)
        }
    }
}

pub fn output_messages(snapshot: &TaskSnapshot) -> (r: Vec<String>)
    requires
        showable(snapshot@),
    ensures
        views(r@) == wrapped_chunks(output_chunks(normalized_text(snapshot@.output), OUTPUT_STREAM_CHUNK as nat)),
{
    let out = normalized_output(snapshot.output.as_str());
    let chunks = split_output_chunks(out.as_str(), OUTPUT_STREAM_CHUNK);
    let ghost cs = views(chunks@);
    let mut msgs: Vec<String> = Vec::new();
    let mut i: usize = 0;
    while i < chunks.len()
        invariant
            i <= chunks@.len(),
            cs == views(chunks@),
            views(msgs@) == wrapped_chunks(cs.take(i as int)),
        decreases chunks@.len() - i,
    {
        proof {
            assert(cs.take(i + 1).drop_last() =~= cs.take(i as int));
            assert(cs.take(i + 1).last() == chunks@[i as int]@);
        }
        let cv = chars_of(chunks[i].as_str());
        let (a, b) = trim_bounds(cv.as_slice());
        if a < b {
            let escaped = encode_html_text(chunks[i].as_str());
            let mut v: Vec<char> = Vec::new();
            push_str(&mut v, "<pre>");
            push_str(&mut v, escaped.as_str());
            push_str(&mut v, "</pre>");
            let ghost before = views(msgs@);
            msgs.push(string_from(v.as_slice()));
            proof {
                assert(views(msgs@) =~= before.push(v@));
            }
        }
        i = i + 1;
    }
    proof {
        assert(cs.take(chunks@.len() as int) =~= cs);
    }
    msgs
}

proof fn lemma_wrapped_chunks_filter(cs: Seq<Seq<char>>, keep: spec_fn(Seq<char>) -> bool, wrap: spec_fn(Seq<char>) -> Seq<char>)
    requires
        forall|c: Seq<char>| #[trigger] keep(c) == (trim(c).len() > 0),
        forall|c: Seq<char>| #[trigger] wrap(c) == "<pre>"@ + html_escaped(c) + "</pre>"@,
    ensures
        wrapped_chunks(cs) == cs.filter(keep).map_values(wrap),
    decreases cs.len(),
{
    reveal(Seq::filter);
    if cs.len() > 0 {
        lemma_wrapped_chunks_filter(cs.drop_last(), keep, wrap);
        let f = cs.drop_last().filter(keep);
        assert(cs.filter(keep) == (if keep(cs.last()) { f.push(cs.last()) } else { f }));
        if keep(cs.last()) {
            assert(f.push(cs.last()).map_values(wrap) =~= f.map_values(wrap).push(wrap(cs.last())));
        }
    } else {
        assert(cs.filter(keep).map_values(wrap) =~= Seq::<Seq<char>>::empty());
    }
}

/// The status messages are the output's chunks that are not blank, each escaped and
/// preformatted, all of them and in their order: no chunk is dropped or repeated.
pub proof fn law_status_messages_are_the_nonblank_chunks(cs: Seq<Seq<char>>)
    ensures
        wrapped_chunks(cs) == cs.filter(|c: Seq<char>| trim(c).len() > 0).map_values(
            |c: Seq<char>| "<pre>"@ + html_escaped(c) + "</pre>"@,
        ),
        wrapped_chunks(cs).len() == cs.filter(|c: Seq<char>| trim(c).len() > 0).len(),
        forall|i: int| 0 <= i < cs.len() && trim(cs[i]).len() > 0 ==> #[trigger] wrapped_chunks(cs).contains(
            "<pre>"@ + html_escaped(cs[i]) + "</pre>"@,
        ),
{
    let keep = |c: Seq<char>| trim(c).len() > 0;
    let wrap = |c: Seq<char>| "<pre>"@ + html_escaped(c) + "</pre>"@;
    lemma_wrapped_chunks_filter(cs, keep, wrap);
    let f = cs.filter(keep);
    assert forall|i: int| 0 <= i < cs.len() && trim(cs[i]).len() > 0 implies #[trigger] wrapped_chunks(cs).contains(
        "<pre>"@ + html_escaped(cs[i]) + "</pre>"@,
    ) by {
        cs.lemma_filter_contains(keep, i);
        let j = choose|j: int| 0 <= j < f.len() && f[j] == cs[i];
        assert(f.map_values(wrap)[j] == wrap(cs[i]));
    }
}

pub fn can_show(snapshot: &TaskSnapshot) -> (r: bool)
    ensures
        r == showable(snapshot@),
{
    let out = normalized_output(snapshot.output.as_str());
    can_split_output(out.as_str(), OUTPUT_STREAM_CHUNK)
}

/// What one look at a followed task changes in the chat.
pub struct MonitorUpdate {
    /// The new status card, when the task changed.
    pub status_text: Option<String>,
    /// The new output message, when the task changed and it reads differently.
    pub output_text: Option<String>,
    /// The task no longer runs: stop following it.
    pub done: bool,
}

/// One look at a followed task whose last shown version and output message are
/// given: a new version redraws the status card, and the output message when it
/// reads differently; following ends when the task no longer runs.
pub open spec fn monitor_update(t: TaskView, last_version: u64, last_output: Seq<char>, r: MonitorUpdate) -> bool {
    &&& r.done == (t.status != TaskStatus::Running)
    &&& if t.version == last_version {
        r.status_text is None && r.output_text is None
    } else {
        &&& r.status_text matches Some(s) && s@ == status_card(t)
        &&& if live_output(t) == last_output {
            r.output_text is None
        } else {
            r.output_text matches Some(o) && o@ == live_output(t)
        }
    }
}

pub fn monitor_step(snapshot: &TaskSnapshot, last_version: u64, last_output: &str) -> (r: MonitorUpdate)
    requires
        snapshot.version != last_version ==> showable(snapshot@),
    ensures
        monitor_update(snapshot@, last_version, last_output@, r),
{
    let done = snapshot.status != TaskStatus::Running;
    if snapshot.version == last_version {
        return MonitorUpdate { status_text: None, output_text: None, done };
    }
    let status = task_to_text(snapshot);
    let rendered = render_output(snapshot);
    let rv = chars_of(rendered.as_str());
    let lv = chars_of(last_output);
    let output_text = if crate::text::chars_eq(rv.as_slice(), lv.as_slice()) {
        None
    } else {
        Some(rendered)
    };
    MonitorUpdate { status_text: Some(status), output_text, done }
}

/// Escaped text holds no '<' or '>', so text shown in the chat cannot open or close
/// an HTML tag.
pub proof fn law_escaped_text_has_no_tags(s: Seq<char>)
    ensures
        forall|i: int| 0 <= i < html_escaped(s).len() ==> #[trigger] html_escaped(s)[i] != '<' && html_escaped(s)[i] != '>',
    decreases s.len(),
{
    reveal_strlit("&amp;");
    reveal_strlit("&lt;");
    reveal_strlit("&gt;");
    if s.len() > 0 {
        law_escaped_text_has_no_tags(s.drop_last());
        let a = html_escaped(s.drop_last());
        let b = html_escaped_char(s.last());
        assert forall|i: int| 0 <= i < (a + b).len() implies #[trigger] (a + b)[i] != '<' && (a + b)[i] != '>' by {
            if i >= a.len() {
                assert((a + b)[i] == b[i - a.len()]);
            } else {
                assert((a + b)[i] == a[i]);
            }
        }
    }
}

/// A message cut to the size limit is never longer than the limit, and it is the
/// end of the text.
pub proof fn law_fitted_text_is_bounded(s: Seq<char>, max: nat)
    ensures
        fit_text(s, max).len() <= max,
        s.len() <= max ==> fit_text(s, max) == s,
        fit_text(s, max) == s.subrange(s.len() - fit_text(s, max).len(), s.len() as int),
{
    assert(s.subrange(0, s.len() as int) =~= s);
}

} // verus!
