use vstd::prelude::*;
use vstd::utf8;

verus! {

/// The prompt of the first turn of a conversation.
pub open spec fn first_turn_prompt(system: Seq<char>, user: Seq<char>) -> Seq<char> {
    "<|system|>\n"@ + system + "\n</s>\n<|user|>\n"@ + user + "\n</s>\n<|assistant|>\n"@
}

/// The prompt of a later turn, which ends the answer before it.
pub open spec fn next_turn_prompt(user: Seq<char>) -> Seq<char> {
    "</s>\n<|user|>\n"@ + user + "\n</s>\n<|assistant|>\n"@
}

pub fn build_first_turn_prompt(system: &str, user: &str) -> (prompt: String)
    ensures
        prompt@ == first_turn_prompt(system@, user@),
{
    let mut prompt = "<|system|>\n".to_string();
    prompt.append(system);
    prompt.append("\n</s>\n<|user|>\n");
    prompt.append(user);
    prompt.append("\n</s>\n<|assistant|>\n");
    prompt
}

pub fn build_next_turn_prompt(user: &str) -> (prompt: String)
    ensures
        prompt@ == next_turn_prompt(user@),
{
    let mut prompt = "</s>\n<|user|>\n".to_string();
    prompt.append(user);
    prompt.append("\n</s>\n<|assistant|>\n");
    prompt
}

/// The first `n` bytes of two texts are the same.
pub open spec fn agree(a: Seq<u8>, b: Seq<u8>, n: int) -> bool {
    &&& 0 <= n <= a.len()
    &&& n <= b.len()
    &&& forall|i: int| 0 <= i < n ==> #[trigger] a[i] == b[i]
}

/// The last place where `cur` can be cut between two characters and agrees with `prev`
/// up to there.
pub open spec fn is_common_cut(prev: Seq<u8>, cur: Seq<u8>, cut: int) -> bool {
    &&& agree(prev, cur, cut)
    &&& utf8::is_char_boundary(cur, cut)
    &&& forall|k: int| cut < k <= cur.len() && #[trigger] utf8::is_char_boundary(cur, k) ==> !agree(prev, cur, k)
}

/// The length in bytes of the common start of two texts, in whole characters of the
/// second one.
pub fn lcp_char_boundary(prev: &str, cur: &str) -> (cut: usize)
    ensures
        is_common_cut(utf8::encode_utf8(prev@), utf8::encode_utf8(cur@), cut as int),
{
    let a = prev.as_bytes();
    let b = cur.as_bytes();
    let n: usize = if a.len() < b.len() {
        a.len()
    } else {
        b.len()
    };
    let mut i: usize = 0;
    while i < n && a[i] == b[i]
        invariant
            i <= n,
            n <= a@.len(),
            n <= b@.len(),
            agree(a@, b@, i as int),
        decreases n - i,
    {
        i = i + 1;
    }
    let ghost bytes = utf8::encode_utf8(cur@);
    let ghost common = i as int;
    proof {
        assert forall|k: int| common < k <= bytes.len() implies !agree(a@, bytes, k) by {
            if agree(a@, bytes, k) {
                assert(a@[common] == bytes[common]);
            }
        }
        utf8::encode_utf8_valid_utf8(cur@);
        utf8::is_char_boundary_start_end_of_seq(bytes);
    }
    while i > 0 && !cur.is_char_boundary(i)
        invariant
            bytes == utf8::encode_utf8(cur@),
            i <= common,
            agree(a@, bytes, common),
            forall|k: int| common < k <= bytes.len() ==> !agree(a@, bytes, k),
            forall|k: int| i < k <= common ==> !utf8::is_char_boundary(bytes, k),
        decreases i,
    {
        i = i - 1;
    }
    i
}

/// A text holds a character.
pub open spec fn holds_char(text: Seq<char>, c: char) -> bool {
    exists|i: int| 0 <= i < text.len() && #[trigger] text[i] == c
}

/// The characters of a text.
pub(crate) fn chars_of(text: &str) -> (chars: Vec<char>)
    ensures
        chars@ == text@,
{
    let n: usize = text.unicode_len();
    let mut chars: Vec<char> = Vec::with_capacity(n);
    for c in it: text.chars()
        invariant
            chars@ == it.seq().take(it.index() as int),
    {
        chars.push(c);
    }
    chars
}

/// What stands in a decoded text for bytes that do not make up a character yet.
pub const REPLACEMENT: char = '\u{FFFD}';

/// What is shown of a text, when an earlier one was shown before it: what follows the
/// common start, if anything does. A text with incomplete characters waits.
pub open spec fn suffix_shown(prev: Seq<char>, cur: Seq<char>, cut: int, after: Seq<char>, shown: Option<String>) -> bool {
    if holds_char(cur, REPLACEMENT) {
        after == prev && shown is None
    } else {
        let bytes = utf8::encode_utf8(cur);
        &&& after == cur
        &&& is_common_cut(utf8::encode_utf8(prev), bytes, cut)
        &&& if cut < bytes.len() {
            shown matches Some(t) && utf8::encode_utf8(t@) == bytes.subrange(cut, bytes.len() as int)
        } else {
            shown is None
        }
    }
}

fn has_char(chars: &Vec<char>, c: char) -> (r: bool)
    ensures
        r == holds_char(chars@, c),
{
    for i in 0..chars.len()
        invariant
            forall|j: int| 0 <= j < i ==> #[trigger] chars@[j] != c,
    {
        if chars[i] == c {
            return true;
        }
    }
    false
}

/// What is to be printed, now that the text of an answer has grown.
pub fn print_new_suffix(prev_printed: &mut String, cur_full: String) -> (shown: Option<String>)
    ensures
        exists|cut: int| suffix_shown(old(prev_printed)@, cur_full@, cut, final(prev_printed)@, shown),
{
    let ghost before = prev_printed@;
    if has_char(&chars_of(cur_full.as_str()), REPLACEMENT) {
        assert(suffix_shown(before, cur_full@, 0, prev_printed@, None));
        return None;
    }
    let cut: usize = lcp_char_boundary(prev_printed.as_str(), cur_full.as_str());
    let mut shown: Option<String> = None;
    if cut < cur_full.as_str().as_bytes().len() {
        let (_, tail) = cur_full.as_str().split_at(cut);
        shown = Some(tail.to_string());
    }
    *prev_printed = cur_full;
    assert(suffix_shown(before, cur_full@, cut as int, prev_printed@, shown));
    shown
}

/// There is only one last place where two texts can be cut.
pub proof fn law_cut_is_unique(prev: Seq<u8>, cur: Seq<u8>, a: int, b: int)
    requires
        is_common_cut(prev, cur, a),
        is_common_cut(prev, cur, b),
    ensures
        a == b,
{
}

/// What is shown, put behind what the text before has in common with the new one, is the
/// new text.
pub proof fn law_shown_completes(prev: Seq<char>, cur: Seq<char>, cut: int, after: Seq<char>, shown: String)
    requires
        suffix_shown(prev, cur, cut, after, Some(shown)),
    ensures
        utf8::encode_utf8(prev).take(cut) + utf8::encode_utf8(shown@) == utf8::encode_utf8(cur),
{
    let a = utf8::encode_utf8(prev);
    let b = utf8::encode_utf8(cur);
    assert(a.take(cut) =~= b.take(cut));
    assert(b.take(cut) + b.subrange(cut, b.len() as int) =~= b);
}

/// The bytes of a text that is put together are those of its parts, and it can be cut
/// between them.
proof fn lemma_encoded_parts(a: Seq<char>, b: Seq<char>)
    ensures
        utf8::encode_utf8(a + b) == utf8::encode_utf8(a) + utf8::encode_utf8(b),
        utf8::is_char_boundary(utf8::encode_utf8(a + b), utf8::encode_utf8(a).len() as int),
    decreases a.len(),
{
    utf8::encode_utf8_valid_utf8(a + b);
    if a.len() == 0 {
        assert(a + b =~= b);
        assert(utf8::encode_utf8(a) =~= Seq::<u8>::empty());
        assert(utf8::encode_utf8(a) + utf8::encode_utf8(b) =~= utf8::encode_utf8(b));
    } else {
        let rest = a.drop_first();
        let first = utf8::encode_scalar(a[0] as u32);
        lemma_encoded_parts(rest, b);
        assert((a + b).drop_first() =~= rest + b);
        assert(utf8::encode_utf8(a + b) =~= utf8::encode_utf8(a) + utf8::encode_utf8(b));
        utf8::encode_utf8_first_scalar(a + b);
        assert(utf8::pop_first_scalar(utf8::encode_utf8(a + b)) =~= utf8::encode_utf8(rest + b));
    }
}

/// When a text goes on from the one before, just what is new is shown.
pub proof fn law_growth_is_shown(prev: Seq<char>, new: Seq<char>, cut: int, after: Seq<char>, shown: Option<String>)
    requires
        suffix_shown(prev, prev + new, cut, after, shown),
        !holds_char(prev + new, REPLACEMENT),
    ensures
        after == prev + new,
        match shown {
            Some(t) => t@ == new,
            None => new.len() == 0,
        },
{
    let a = utf8::encode_utf8(prev);
    let b = utf8::encode_utf8(prev + new);
    lemma_encoded_parts(prev, new);
    assert(agree(a, b, a.len() as int));
    assert(cut == a.len());
    let tail = utf8::encode_utf8(new);
    assert(b.subrange(cut, b.len() as int) =~= tail);
    utf8::encode_utf8_decode_utf8(new);
    if let Some(t) = shown {
        utf8::encode_utf8_decode_utf8(t@);
    } else if new.len() > 0 {
        utf8::encode_utf8_first_scalar(new);
    }
}

/// A text holds another one.
pub open spec fn holds_text(text: Seq<char>, part: Seq<char>) -> bool {
    exists|i: int| #[trigger] part_at(text, part, i)
}

pub open spec fn part_at(text: Seq<char>, part: Seq<char>, i: int) -> bool {
    0 <= i && i + part.len() <= text.len() && text.subrange(i, i + part.len()) == part
}

fn has_part_at(text: &Vec<char>, part: &Vec<char>, i: usize) -> (r: bool)
    requires
        i + part@.len() <= text@.len(),
    ensures
        r == part_at(text@, part@, i as int),
{
    let len: usize = text.len();
    for j in 0..part.len()
        invariant
            len == text@.len(),
            i + part@.len() <= len,
            forall|k: int| 0 <= k < j ==> #[trigger] part@[k] == text@[i + k],
    {
        if text[i + j] != part[j] {
            assert(text@.subrange(i as int, i + part@.len())[j as int] != part@[j as int]);
            return false;
        }
    }
    assert(text@.subrange(i as int, i + part@.len()) =~= part@);
    true
}

fn has_text(text: &Vec<char>, part: &Vec<char>) -> (r: bool)
    ensures
        r == holds_text(text@, part@),
{
    if part.len() > text.len() {
        return false;
    }
    let last: usize = text.len() - part.len();
    let mut i: usize = 0;
    while i < last
        invariant
            part@.len() <= text@.len(),
            last == text@.len() - part@.len(),
            i <= last,
            forall|k: int| 0 <= k < i ==> !#[trigger] part_at(text@, part@, k),
        decreases last - i,
    {
        if has_part_at(text, part, i) {
            return true;
        }
        i = i + 1;
    }
    has_part_at(text, part, last)
}

/// A generated text has begun the next turn by itself.
pub open spec fn begins_turn(text: Seq<char>) -> bool {
    holds_text(text, "<|user|>"@) || holds_text(text, "<|assistant|>"@)
}

/// Whether a generated text has begun the next turn by itself.
pub fn starts_another_turn(text: &str) -> (r: bool)
    ensures
        r == begins_turn(text@),
{
    let chars = chars_of(text);
    has_text(&chars, &chars_of("<|user|>")) || has_text(&chars, &chars_of("<|assistant|>"))
}

/// What a line from the user asks for.
#[derive(Clone, Copy, Debug, PartialEq, Eq, Structural)]
pub enum Command {
    Nothing,
    Exit,
    Reset,
    Say,
}

/// What a line, without the blanks around it, asks for.
pub open spec fn command(line: Seq<char>) -> Command {
    if line.len() == 0 {
        Command::Nothing
    } else if line == "/exit"@ || line == "exit"@ || line == "quit"@ {
        Command::Exit
    } else if line == "/reset"@ || line == "reset"@ {
        Command::Reset
    } else {
        Command::Say
    }
}

/// What a line, without the blanks around it, asks for.
pub fn command_of(line: &String) -> (c: Command)
    ensures
        c == command(line@),
{
    if line.as_str().is_empty() {
        Command::Nothing
    } else if *line == "/exit".to_string() || *line == "exit".to_string() || *line == "quit".to_string() {
        Command::Exit
    } else if *line == "/reset".to_string() || *line == "reset".to_string() {
        Command::Reset
    } else {
        Command::Say
    }
}

/// Tokens that stay free behind a prompt and an answer.
pub const HEADROOM: usize = 8;

/// A prompt and an answer of full length do not fit behind what is in the cache.
pub open spec fn overflows(cached: int, new: int, max_gen: int, max_seq_len: int) -> bool {
    cached + new + max_gen + HEADROOM >= max_seq_len
}

fn would_overflow(cached: usize, new: usize, max_gen: usize, max_seq_len: usize) -> (r: bool)
    ensures
        r == overflows(cached as int, new as int, max_gen as int, max_seq_len as int),
{
    cached.saturating_add(new).saturating_add(max_gen).saturating_add(HEADROOM) >= max_seq_len
}

/// Whether the cache has no room for another token.
pub fn cache_is_full(cached: usize, max_seq_len: usize) -> (r: bool)
    ensures
        r == (cached + 2 >= max_seq_len),
{
    cached.saturating_add(2) >= max_seq_len
}

/// What a prompt leads to.
#[derive(Clone, Copy, Debug, PartialEq, Eq, Structural)]
pub enum Admission {
    /// There is nothing to answer.
    Skip,
    /// The conversation has to start anew, with a prompt for the first turn.
    Restart,
    /// The tokens are to be run through the model.
    Prefill,
}

/// A conversation.
pub struct Session {
    /// All tokens, of prompts and answers.
    pub tokens: Vec<usize>,
    /// The next prompt is the first one.
    pub first_turn: bool,
}

impl Session {
    pub fn new() -> (s: Session)
        ensures
            s.tokens@.len() == 0,
            s.first_turn,
    {
        Session { tokens: Vec::new(), first_turn: true }
    }

    /// Forgets what was said.
    pub fn reset(&mut self)
        ensures
            final(self).tokens@.len() == 0,
            final(self).first_turn,
    {
        self.tokens = Vec::new();
        self.first_turn = true;
    }

    /// The prompt for what the user says.
    pub fn prompt(&self, system: &str, user: &str) -> (p: String)
        ensures
            p@ == (if self.first_turn {
                first_turn_prompt(system@, user@)
            } else {
                next_turn_prompt(user@)
            }),
    {
        if self.first_turn {
            build_first_turn_prompt(system, user)
        } else {
            build_next_turn_prompt(user)
        }
    }

    /// Takes the tokens of a prompt. Where there is no room left for them and an answer,
    /// everything is forgotten.
    pub fn receive(&mut self, new: &Vec<usize>, cached: usize, max_gen: usize, max_seq_len: usize) -> (a: Admission)
        ensures
            if new@.len() == 0 {
                a == Admission::Skip && final(self).tokens@ == old(self).tokens@ && !final(self).first_turn
            } else if overflows(cached as int, new@.len() as int, max_gen as int, max_seq_len as int) {
                a == Admission::Restart && final(self).tokens@.len() == 0 && final(self).first_turn
            } else {
                a == Admission::Prefill && final(self).tokens@ == old(self).tokens@ + new@ && final(self).first_turn
                    == old(self).first_turn
            },
    {
        if new.len() > 0 && would_overflow(cached, new.len(), max_gen, max_seq_len) {
            self.reset();
            return Admission::Restart;
        }
        self.receive_again(new)
    }

    /// Takes the tokens of a prompt, however many there are.
    pub fn receive_again(&mut self, new: &Vec<usize>) -> (a: Admission)
        ensures
            if new@.len() == 0 {
                a == Admission::Skip && final(self).tokens@ == old(self).tokens@ && !final(self).first_turn
            } else {
                a == Admission::Prefill && final(self).tokens@ == old(self).tokens@ + new@ && final(self).first_turn
                    == old(self).first_turn
            },
    {
        if new.len() == 0 {
            self.first_turn = false;
            return Admission::Skip;
        }
        let ghost before = self.tokens@;
        for i in 0..new.len()
            invariant
                self.tokens@ == before + new@.take(i as int),
                self.first_turn == old(self).first_turn,
        {
            self.tokens.push(new[i]);
            assert(self.tokens@ =~= before + new@.take(i + 1));
        }
        assert(new@.take(new@.len() as int) =~= new@);
        Admission::Prefill
    }

    /// Where the tokens begin that count as recent.
    pub fn recent_start(&self, window: usize) -> (start: usize)
        ensures
            start == (if self.tokens@.len() > window {
                self.tokens@.len() - window
            } else {
                0
            }),
    {
        self.tokens.len().saturating_sub(window)
    }

    /// Takes a generated token, unless it ends the answer.
    pub fn take_token(&mut self, token: usize, stop_ids: &Vec<usize>) -> (goes_on: bool)
        ensures
            goes_on == !stop_ids@.contains(token),
            final(self).first_turn == old(self).first_turn,
            final(self).tokens@ == (if goes_on {
                old(self).tokens@.push(token)
            } else {
                old(self).tokens@
            }),
    {
        if holds_id(stop_ids, token) {
            return false;
        }
        self.tokens.push(token);
        true
    }

    /// The turn is over.
    pub fn end_turn(&mut self)
        ensures
            !final(self).first_turn,
            final(self).tokens == old(self).tokens,
    {
        self.first_turn = false;
    }
}

fn holds_id(ids: &Vec<usize>, id: usize) -> (r: bool)
    ensures
        r == ids@.contains(id),
{
    for i in 0..ids.len()
        invariant
            forall|j: int| 0 <= j < i ==> #[trigger] ids@[j] != id,
    {
        if ids[i] == id {
            return true;
        }
    }
    false
}

/// The numbers in ascending order, each once.
pub open spec fn is_sorted_set(ids: Seq<usize>, r: Seq<usize>) -> bool {
    &&& forall|i: int, j: int| 0 <= i < j < r.len() ==> #[trigger] r[i] < #[trigger] r[j]
    &&& forall|id: usize| #[trigger] r.contains(id) <==> ids.contains(id)
}

/// The tokens that end an answer, in ascending order and each once.
pub fn stop_ids(ids: &Vec<usize>) -> (r: Vec<usize>)
    ensures
        is_sorted_set(ids@, r@),
{
    let mut r: Vec<usize> = Vec::new();
    for i in 0..ids.len()
        invariant
            is_sorted_set(ids@.take(i as int), r@),
    {
        let id: usize = ids[i];
        let ghost before = r@;
        let mut place: usize = 0;
        while place < r.len() && r[place] < id
            invariant
                r@ == before,
                place <= r@.len(),
                forall|j: int| 0 <= j < place ==> #[trigger] r@[j] < id,
            decreases r@.len() - place,
        {
            place = place + 1;
        }
        if place == r.len() || r[place] != id {
            r.insert(place, id);
        }
        proof {
            let part = ids@.take(i + 1);
            assert forall|x: usize| #[trigger] r@.contains(x) <==> part.contains(x) by {
                lemma_inserted(ids@, i as int, before, place as int, r@, x);
            }
            assert forall|a: int, b: int| 0 <= a < b < r@.len() implies #[trigger] r@[a] < #[trigger] r@[b] by {
                if r@ != before {
                    let (a0, b0) = (if a > place { a - 1 } else { a }, if b > place { b - 1 } else { b });
                    if a != place && b != place {
                        assert(before[a0] < before[b0]);
                    } else if a == place {
                        assert(before[b0] >= before[place as int]);
                    }
                }
            }
        }
    }
    assert(ids@.take(ids@.len() as int) =~= ids@);
    r
}

/// Whether a number is among the first ones does not depend on where it was put.
proof fn lemma_inserted(ids: Seq<usize>, i: int, before: Seq<usize>, place: int, after: Seq<usize>, x: usize)
    requires
        0 <= i < ids.len(),
        is_sorted_set(ids.take(i), before),
        0 <= place <= before.len(),
        (place < before.len() && before[place] == ids[i] && after == before) || after == before.insert(place, ids[i]),
    ensures
        after.contains(x) <==> ids.take(i + 1).contains(x),
{
    let part = ids.take(i + 1);
    assert(part =~= ids.take(i).push(ids[i]));
    assert(before.contains(x) <==> ids.take(i).contains(x));
    assert(part[i] == ids[i]);
    if part.contains(x) {
        let k = choose|k: int| 0 <= k < part.len() && part[k] == x;
        if k < i {
            assert(ids.take(i)[k] == x);
            let j = choose|j: int| 0 <= j < before.len() && before[j] == x;
            if after != before {
                assert(after[if j < place { j } else { j + 1 }] == x);
            }
        } else {
            assert(after[place] == x);
        }
    }
    if after.contains(x) {
        let k = choose|k: int| 0 <= k < after.len() && after[k] == x;
        if x != ids[i] {
            if after != before {
                assert(before[if k < place { k } else { k - 1 }] == x);
            }
            assert(before.contains(x));
            let j = choose|j: int| 0 <= j < ids.take(i).len() && ids.take(i)[j] == x;
            assert(part[j] == x);
        }
    }
}

} // verus!
