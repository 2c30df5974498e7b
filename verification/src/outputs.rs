//! What the run tells the workflow: step outputs and log lines.

use crate::text::push_str;
use vstd::prelude::*;
use vstd::string::*;
use vstd::utf8::*;

verus! {

/// The line that closes the value of a step output.
pub const DELIMITER: &'static str = "__NIX_BUMP_EOF__";

/// A step output.
#[derive(Debug)]
pub struct Output {
    pub name: String,
    pub value: String,
}

/// A step output as contracts speak of it.
pub struct OutputView {
    pub name: Seq<char>,
    pub value: Seq<u8>,
}

impl View for Output {
    type V = OutputView;

    open spec fn view(&self) -> OutputView {
        OutputView { name: self.name@, value: encode_utf8(self.value@) }
    }
}

/// Each step output as contracts speak of it.
pub open spec fn outputs_of(outputs: Seq<Output>) -> Seq<OutputView> {
    outputs.map_values(|o: Output| o@)
}

/// A step output in the heredoc form: the name and the delimiter, the value on
/// lines of its own, the delimiter.
pub open spec fn heredoc(name: Seq<char>, value: Seq<char>) -> Seq<char> {
    name + "<<"@ + DELIMITER@ + "\n"@ + value + "\n"@ + DELIMITER@ + "\n"@
}

/// Renders a step output using the heredoc form so multi-line values survive.
pub fn emit(name: &str, value: &str) -> (r: String)
    ensures
        r@ == heredoc(name@, value@),
{
    let mut out: String = String::new();
    push_str(&mut out, name);
    push_str(&mut out, "<<");
    push_str(&mut out, DELIMITER);
    push_str(&mut out, "\n");
    push_str(&mut out, value);
    push_str(&mut out, "\n");
    push_str(&mut out, DELIMITER);
    push_str(&mut out, "\n");
    assert(out@ =~= heredoc(name@, value@));
    out
}

/// A line of `text` that begins at `i` is the delimiter, and ends in a newline.
pub open spec fn closes_at(text: Seq<char>, i: int) -> bool {
    let n = DELIMITER@.len();
    &&& 0 <= i && i + n < text.len()
    &&& i == 0 || text[i - 1] == '\n'
    &&& text.subrange(i, i + n) == DELIMITER@
    &&& text[i + n] == '\n'
}

proof fn lemma_delimiter_is_one_line()
    ensures
        forall|i: int| 0 <= i < DELIMITER@.len() ==> #[trigger] DELIMITER@[i] != '\n',
        "\n"@ == seq!['\n'],
{
    reveal_strlit("__NIX_BUMP_EOF__");
    reveal_strlit("\n");
    assert("\n"@ =~= seq!['\n']);
}

/// Multi-line values survive: behind its first line, a rendered step output
/// holds the value up to the first closing line, whatever lines the value has,
/// unless one of them is the delimiter itself.
pub proof fn lemma_value_survives(name: Seq<char>, value: Seq<char>)
    requires
        forall|i: int| !#[trigger] closes_at(value + "\n"@, i),
    ensures
        ({
            let entry = heredoc(name, value);
            let first = name + "<<"@ + DELIMITER@ + "\n"@;
            let begin = first.len() as int;
            let close = begin + value.len() + 1;
            &&& entry.subrange(0, begin) == first
            &&& entry.subrange(begin, close - 1) == value
            &&& closes_at(entry, close)
            &&& forall|i: int| begin <= i < close ==> !#[trigger] closes_at(entry, i)
        }),
{
    lemma_delimiter_is_one_line();
    let d = DELIMITER@;
    let nl = "\n"@;
    let n = d.len() as int;
    let entry = heredoc(name, value);
    let first = name + "<<"@ + d + nl;
    let begin = first.len() as int;
    let close = begin + value.len() + 1;
    let body = value + nl;
    let rest = d + nl;
    assert(entry =~= first + body + rest);
    assert(entry.subrange(0, begin) =~= first);
    assert(entry.subrange(begin, close - 1) =~= value);
    assert(entry.subrange(close, close + n) =~= d);
    assert(entry[close - 1] == body[value.len() as int]);
    assert(entry[close + n] == rest[n]);
    assert forall|i: int| begin <= i < close implies !#[trigger] closes_at(entry, i) by {
        if closes_at(entry, i) {
            let line = entry.subrange(i, i + n);
            assert(line == d);
            if i + n > close - 1 {
                assert(line[close - 1 - i] == entry[close - 1]);
                assert(d[close - 1 - i] != '\n');
            } else {
                let k = i - begin;
                assert(body.subrange(k, k + n) =~= line);
                assert(body[k + n] == entry[i + n]);
                assert(k > 0 ==> body[k - 1] == entry[i - 1]);
                assert(closes_at(body, k));
            }
        }
    }
}

/// A rendered step output is the name, the opening delimiter's line, the value
/// and the closing delimiter's line, and nothing more, whatever the value.
pub proof fn lemma_value_is_framed(name: Seq<char>, value: Seq<char>)
    ensures
        heredoc(name, value) == name + "<<__NIX_BUMP_EOF__\n"@ + value
            + "\n__NIX_BUMP_EOF__\n"@,
{
    reveal_strlit("<<__NIX_BUMP_EOF__\n");
    reveal_strlit("\n__NIX_BUMP_EOF__\n");
    reveal_strlit("__NIX_BUMP_EOF__");
    reveal_strlit("<<");
    reveal_strlit("\n");
    let open = "<<__NIX_BUMP_EOF__\n"@;
    let close = "\n__NIX_BUMP_EOF__\n"@;
    assert(open =~= "<<"@ + DELIMITER@ + "\n"@);
    assert(close =~= "\n"@ + DELIMITER@ + "\n"@);
    assert(heredoc(name, value) =~= name + open + value + close);
}

/// `items` with `sep` between each two.
pub open spec fn joined(items: Seq<Seq<u8>>, sep: Seq<u8>) -> Seq<u8>
    decreases items.len(),
{
    if items.len() == 0 {
        Seq::empty()
    } else if items.len() == 1 {
        items[0]
    } else {
        joined(items.drop_last(), sep) + sep + items.last()
    }
}

/// Joining one item gives it back, joining none gives nothing, and joining two
/// lists end to end is joining each and putting the separator between.
pub proof fn lemma_joined_piece_by_piece(
    a: Seq<Seq<u8>>,
    b: Seq<Seq<u8>>,
    sep: Seq<u8>,
    item: Seq<u8>,
)
    ensures
        joined(Seq::empty(), sep) == Seq::<u8>::empty(),
        joined(seq![item], sep) == item,
        a.len() > 0 && b.len() > 0 ==> joined(a + b, sep) == joined(a, sep) + sep + joined(b, sep),
    decreases b.len(),
{
    if a.len() > 0 && b.len() > 0 {
        let all = a + b;
        let init = b.drop_last();
        assert(all.drop_last() =~= a + init);
        assert(all.last() == b.last());
        if b.len() == 1 {
            assert(a + init =~= a);
        } else {
            lemma_joined_piece_by_piece(a, init, sep, item);
            assert(joined(all, sep) =~= joined(a, sep) + sep + joined(b, sep));
        }
    }
}

/// How much a log line matters.
#[derive(Debug, Clone, Copy, PartialEq, Eq, Structural)]
pub enum Level {
    Error,
    Warn,
    Info,
    Debug,
    Trace,
}

/// What marks a log line of a level for the workflow runner, spelled exactly as
/// the runner documents it.
pub open spec fn command_prefix(level: Level) -> Seq<char> {
    match level {
        Level::Error => "::error::"@,
        Level::Warn => "::warning::"@,
        Level::Info => ""@,
        _ => "::debug::"@,
    }
}

/// A log line as the workflow runner reads it. Errors and warnings surface as
/// annotations on the run and the diff, info is the running commentary and
/// stays unadorned, and the rest is hidden unless debug logging is enabled.
pub fn log_line(level: Level, message: &str) -> (r: String)
    ensures
        r@ == command_prefix(level) + message@ + "\n"@,
        level is Error ==> r@ == "::error::"@ + message@ + "\n"@,
        level is Warn ==> r@ == "::warning::"@ + message@ + "\n"@,
        level is Info ==> r@ == message@ + "\n"@,
        level is Debug || level is Trace ==> r@ == "::debug::"@ + message@ + "\n"@,
{
    let mut out: String = String::new();
    match level {
        Level::Error => push_str(&mut out, "::error::"),
        Level::Warn => push_str(&mut out, "::warning::"),
        Level::Info => push_str(&mut out, ""),
        _ => push_str(&mut out, "::debug::"),
    }
    push_str(&mut out, message);
    push_str(&mut out, "\n");
    assert(out@ =~= command_prefix(level) + message@ + "\n"@);
    proof {
        reveal_strlit("");
        assert(""@ + message@ =~= message@);
    }
    out
}

/// The least important level that is logged: debug lines are wanted when
/// either debug switch is set.
pub fn log_level(runner_debug: bool, debug: bool) -> (r: Level)
    ensures
        r == if runner_debug || debug {
            Level::Debug
        } else {
            Level::Info
        },
{
    if runner_debug || debug {
        Level::Debug
    } else {
        Level::Info
    }
}

} // verus!
