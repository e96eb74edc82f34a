use vstd::prelude::*;
use crate::index::Index;
use crate::tokenizer::{fold_seq, normalize};

verus! {

/// At most this many snippets answer one search.
pub const MAX_RESULTS: usize = 10;

/// Bytes of context kept before an occurrence.
pub const LEFT_CONTEXT: u64 = 60;

/// Bytes of context kept from an occurrence on.
pub const RIGHT_CONTEXT: u64 = 68;

/// The context window `[start, end)` of an occurrence at `o`: from 60 bytes before
/// it to 68 bytes after its start, clipped to `[0, file_len)`.
pub open spec fn window(o: u64, file_len: u64) -> (u64, u64) {
    let start: int = if o >= LEFT_CONTEXT { o - LEFT_CONTEXT } else { 0 };
    let end: int = o + RIGHT_CONTEXT;
    (
        (if start <= file_len { start } else { file_len as int }) as u64,
        (if end <= file_len { end } else { file_len as int }) as u64,
    )
}

/// The text of a search answer: each snippet's bytes as characters, one for one,
/// followed by a line break and an HTML break.
pub open spec fn rendered(snips: Seq<Seq<u8>>) -> Seq<char>
    decreases snips.len(),
{
    if snips.len() == 0 {
        Seq::empty()
    } else {
        rendered(snips.drop_last()) + bytes_as_chars(snips.last()) + line_break()
    }
}

pub open spec fn bytes_as_chars(b: Seq<u8>) -> Seq<char> {
    b.map_values(|x: u8| x as char)
}

pub open spec fn line_break() -> Seq<char> {
    seq!['\n', '<', 'b', 'r', '/', '>']
}

/// The answer when a term has no occurrence.
pub open spec fn nothing() -> Seq<char> {
    seq!['N', 'o', 't', 'h', 'i', 'n', 'g']
}

/// Relies on `String::push`: appends one character at the end.
#[verifier::external_body]
fn push_char(s: &mut String, c: char)
    ensures
        final(s)@ == old(s)@.push(c),
{
    s.push(c)
}

/// The window of an occurrence at `o`.
pub fn window_of(o: u64, file_len: u64) -> (r: (u64, u64))
    ensures
        r == window(o, file_len),
        r.0 <= r.1 <= file_len,
        r.1 - r.0 <= LEFT_CONTEXT + RIGHT_CONTEXT,
{
    let start: u64 = if o >= LEFT_CONTEXT { o - LEFT_CONTEXT } else { 0 };
    let start: u64 = if start <= file_len { start } else { file_len };
    let end: u64 = if file_len >= RIGHT_CONTEXT && o <= file_len - RIGHT_CONTEXT {
        o + RIGHT_CONTEXT
    } else {
        file_len
    };
    (start, end)
}

impl Index {
    /// The windows to read for a search on `term`: the term is case-folded as
    /// indexing folds words, and the first `MAX_RESULTS` occurrences, in offset
    /// order, each give one window. An absent term gives none.
    pub fn search(&self, term: &[u8], file_len: u64) -> (r: Vec<(u64, u64)>)
        requires
            self.wf(),
        ensures
            r@.len() == if self.lookup(fold_seq(term@)).len() < MAX_RESULTS {
                self.lookup(fold_seq(term@)).len()
            } else {
                MAX_RESULTS as nat
            },
            forall|i: int| 0 <= i < r@.len() ==> #[trigger] r@[i] == window(self.lookup(fold_seq(term@))[i], file_len),
            forall|i: int| 0 <= i < r@.len() ==> (#[trigger] r@[i]).0 <= r@[i].1 <= file_len && r@[i].1 - r@[i].0 <= 128,
    {
        let key = normalize(term);
        let mut r: Vec<(u64, u64)> = Vec::new();
        match self.find_list(key.as_slice()) {
            None => {},
            Some(list) => {
                let mut i: usize = 0;
                while i < list.len() && i < MAX_RESULTS
                    invariant
                        i <= list@.len(),
                        i <= MAX_RESULTS,
                        r@.len() == i,
                        list@ == self.lookup(key@),
                        forall|k: int| 0 <= k < i ==> #[trigger] r@[k] == window(list@[k], file_len),
                        forall|k: int| 0 <= k < i ==> (#[trigger] r@[k]).0 <= r@[k].1 <= file_len && r@[k].1 - r@[k].0 <= 128,
                    decreases list@.len() - i,
                {
                    r.push(window_of(list[i], file_len));
                    i = i + 1;
                }
            },
        }
        r
    }
}

/// The text that answers a search: `"Nothing"` when the term has no occurrence,
/// else each snippet read from the source as characters, each followed by a
/// line break and an HTML break.
pub fn render(found: bool, snippets: &Vec<Vec<u8>>) -> (r: String)
    ensures
        !found ==> r@ == nothing(),
        found ==> r@ == rendered(snippets@.map_values(|s: Vec<u8>| s@)),
{
    if !found {
        let r = "Nothing".to_owned();
        proof {
            reveal_strlit("Nothing");
            assert(r@ =~= nothing());
        }
        return r;
    }
    let ghost sv = snippets@.map_values(|s: Vec<u8>| s@);
    let mut r = String::new();
    let mut i: usize = 0;
    while i < snippets.len()
        invariant
            i <= snippets@.len(),
            sv == snippets@.map_values(|s: Vec<u8>| s@),
            r@ == rendered(sv.subrange(0, i as int)),
        decreases snippets@.len() - i,
    {
        let snip = &snippets[i];
        let ghost r0 = r@;
        let mut j: usize = 0;
        while j < snip.len()
            invariant
                j <= snip@.len(),
                r@ == r0 + bytes_as_chars(snip@.subrange(0, j as int)),
            decreases snip@.len() - j,
        {
            push_char(&mut r, snip[j] as char);
            assert(bytes_as_chars(snip@.subrange(0, j + 1)) =~= bytes_as_chars(snip@.subrange(0, j as int)).push(snip@[j as int] as char));
            assert(r0 + bytes_as_chars(snip@.subrange(0, j + 1)) =~= (r0 + bytes_as_chars(snip@.subrange(0, j as int))).push(snip@[j as int] as char));
            j = j + 1;
        }
        assert(snip@.subrange(0, snip@.len() as int) =~= snip@);
        let ghost r1 = r@;
        push_char(&mut r, '\n');
        push_char(&mut r, '<');
        push_char(&mut r, 'b');
        push_char(&mut r, 'r');
        push_char(&mut r, '/');
        push_char(&mut r, '>');
        proof {
            assert(r@ =~= r1 + line_break());
            assert(sv.subrange(0, i + 1).drop_last() =~= sv.subrange(0, i as int));
            assert(sv[i as int] == snip@);
        }
        i = i + 1;
    }
    assert(sv.subrange(0, snippets@.len() as int) =~= sv);
    r
}

} // verus!
