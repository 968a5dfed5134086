//! Faults of the pipeline, and the few texts that it composes.

use vstd::prelude::*;

verus! {

/// The character of a decimal digit.
pub open spec fn digit_char(d: int) -> char {
    if d == 0 {
        '0'
    } else if d == 1 {
        '1'
    } else if d == 2 {
        '2'
    } else if d == 3 {
        '3'
    } else if d == 4 {
        '4'
    } else if d == 5 {
        '5'
    } else if d == 6 {
        '6'
    } else if d == 7 {
        '7'
    } else if d == 8 {
        '8'
    } else {
        '9'
    }
}

/// A number in decimal notation.
pub open spec fn decimal(n: int) -> Seq<char>
    decreases n,
{
    if n < 10 {
        seq![digit_char(n)]
    } else {
        decimal(n / 10).push(digit_char(n % 10))
    }
}

fn digit_text(d: u64) -> (r: &'static str)
    requires
        d < 10,
    ensures
        r@ == seq![digit_char(d as int)],
{
    proof {
        reveal_strlit("0");
        reveal_strlit("1");
        reveal_strlit("2");
        reveal_strlit("3");
        reveal_strlit("4");
        reveal_strlit("5");
        reveal_strlit("6");
        reveal_strlit("7");
        reveal_strlit("8");
        reveal_strlit("9");
    }
    let r: &'static str = if d == 0 {
        "0"
    } else if d == 1 {
        "1"
    } else if d == 2 {
        "2"
    } else if d == 3 {
        "3"
    } else if d == 4 {
        "4"
    } else if d == 5 {
        "5"
    } else if d == 6 {
        "6"
    } else if d == 7 {
        "7"
    } else if d == 8 {
        "8"
    } else {
        "9"
    };
    assert(r@ =~= seq![digit_char(d as int)]);
    r
}

/// Appends a number in decimal notation.
pub fn push_decimal(out: &mut String, n: u64)
    ensures
        final(out)@ == old(out)@ + decimal(n as int),
    decreases n,
{
    let ghost before = out@;
    if n < 10 {
        out.append(digit_text(n));
    } else {
        push_decimal(out, n / 10);
        out.append(digit_text(n % 10));
        assert(out@ =~= before + decimal(n as int));
    }
}

/// What went wrong while a page was converted.
#[derive(Debug, PartialEq, Eq)]
pub enum PipelineError {
    /// The extent of a page is too large to count its bytes.
    PixelSizeOverflow,
    /// The pixel buffer of a page does not match its extent.
    PixelBufferMismatch { expected: u64, got: u64 },
    /// The page is not in the cache.
    MissingCachedPage,
    InvalidSourceWidth,
    InvalidSourceHeight,
    InvalidTargetWidth,
    InvalidTargetHeight,
    /// The iTerm2 encoder failed.
    Iterm2Encoding { detail: String },
    /// Another encoder failed.
    ProtocolEncoding { detail: String },
}

impl PipelineError {
    /// The fault in words.
    pub open spec fn text(self) -> Seq<char> {
        match self {
            PipelineError::PixelSizeOverflow => "pixel size overflow"@,
            PipelineError::PixelBufferMismatch { expected, got } =>
                "pixel buffer size mismatch: expected "@ + decimal(expected as int) + ", got "@
                    + decimal(got as int),
            PipelineError::MissingCachedPage => "Missing cached page"@,
            PipelineError::InvalidSourceWidth => "Invalid source width"@,
            PipelineError::InvalidSourceHeight => "Invalid source height"@,
            PipelineError::InvalidTargetWidth => "Invalid target width"@,
            PipelineError::InvalidTargetHeight => "Invalid target height"@,
            PipelineError::Iterm2Encoding { detail } => "Couldn't encode iTerm2 image: "@ + detail@,
            PipelineError::ProtocolEncoding { detail } =>
                "Image conversion failed; unable to render DynamicImage into a ratatui buffer: "@
                    + detail@,
        }
    }

    pub fn message(&self) -> (r: String)
        ensures
            r@ == self.text(),
    {
        let mut out = String::new();
        match self {
            PipelineError::PixelSizeOverflow => out.append("pixel size overflow"),
            PipelineError::PixelBufferMismatch { expected, got } => {
                out.append("pixel buffer size mismatch: expected ");
                push_decimal(&mut out, *expected);
                out.append(", got ");
                push_decimal(&mut out, *got);
            },
            PipelineError::MissingCachedPage => out.append("Missing cached page"),
            PipelineError::InvalidSourceWidth => out.append("Invalid source width"),
            PipelineError::InvalidSourceHeight => out.append("Invalid source height"),
            PipelineError::InvalidTargetWidth => out.append("Invalid target width"),
            PipelineError::InvalidTargetHeight => out.append("Invalid target height"),
            PipelineError::Iterm2Encoding { detail } => {
                out.append("Couldn't encode iTerm2 image: ");
                out.append(detail.as_str());
            },
            PipelineError::ProtocolEncoding { detail } => {
                out.append(
                    "Image conversion failed; unable to render DynamicImage into a ratatui buffer: ",
                );
                out.append(detail.as_str());
            },
        }
        assert(out@ =~= self.text());
        out
    }
}

/// The name of a shared memory segment.
pub open spec fn shm_name(unique: u64, pid: u32, page_num: usize) -> Seq<char> {
    "/bookokrat_"@ + decimal(unique as int) + "-"@ + decimal(pid as int) + "-page-"@ + decimal(
        page_num as int,
    )
}

/// The name of the shared memory segment for a page. `unique` is a number that
/// this process has not used before.
pub fn next_shm_name(unique: u64, pid: u32, page_num: usize) -> (r: String)
    ensures
        r@ == shm_name(unique, pid, page_num),
{
    let mut out = String::new();
    out.append("/bookokrat_");
    push_decimal(&mut out, unique);
    out.append("-");
    push_decimal(&mut out, pid as u64);
    out.append("-page-");
    push_decimal(&mut out, page_num as u64);
    assert(out@ =~= shm_name(unique, pid, page_num));
    out
}

proof fn lemma_decimal_injective(a: int, b: int)
    requires
        0 <= a,
        0 <= b,
        decimal(a) == decimal(b),
    ensures
        a == b,
    decreases a + b,
{
    lemma_decimal_len(a);
    lemma_decimal_len(b);
    assert(decimal(a).last() == digit_char(a % 10));
    assert(decimal(b).last() == digit_char(b % 10));
    lemma_digit_char_injective(a % 10, b % 10);
    if a < 10 || b < 10 {
        if a >= 10 {
            lemma_decimal_len(a / 10);
        }
        if b >= 10 {
            lemma_decimal_len(b / 10);
        }
    } else {
        assert(decimal(a).drop_last() =~= decimal(a / 10));
        assert(decimal(b).drop_last() =~= decimal(b / 10));
        lemma_decimal_injective(a / 10, b / 10);
    }
}

proof fn lemma_decimal_len(n: int)
    requires
        0 <= n,
    ensures
        decimal(n).len() >= 1,
    decreases n,
{
    if n >= 10 {
        lemma_decimal_len(n / 10);
    }
}

proof fn lemma_digit_char_injective(a: int, b: int)
    requires
        0 <= a < 10,
        0 <= b < 10,
        digit_char(a) == digit_char(b),
    ensures
        a == b,
{
}

proof fn lemma_decimal_has_no_dash(n: int, i: int)
    requires
        0 <= n,
        0 <= i < decimal(n).len(),
    ensures
        decimal(n)[i] != '-',
    decreases n,
{
    if n >= 10 {
        lemma_decimal_len(n / 10);
        if i < decimal(n / 10).len() {
            lemma_decimal_has_no_dash(n / 10, i);
        }
    }
}

/// The number that some decimal digits stand for.
pub open spec fn read_decimal(text: Seq<char>) -> int
    decreases text.len(),
{
    if text.len() == 0 {
        0
    } else {
        10 * read_decimal(text.drop_last()) + (text.last() as int - '0' as int)
    }
}

/// A number in decimal notation reads back, consists of digits, and has no
/// leading zero.
pub proof fn law_decimal_reads_back(n: int)
    requires
        0 <= n,
    ensures
        read_decimal(decimal(n)) == n,
        forall|i: int| 0 <= i < decimal(n).len() ==> '0' <= #[trigger] decimal(n)[i] <= '9',
        n > 0 ==> decimal(n)[0] != '0',
    decreases n,
{
    lemma_decimal_len(n);
    if n < 10 {
        assert(decimal(n).drop_last() =~= Seq::empty());
        assert(read_decimal(Seq::empty()) == 0);
        assert(decimal(n).last() == digit_char(n));
    } else {
        law_decimal_reads_back(n / 10);
        lemma_decimal_len(n / 10);
        assert(decimal(n).drop_last() =~= decimal(n / 10));
        assert(decimal(n).last() == digit_char(n % 10));
        assert forall|i: int| 0 <= i < decimal(n).len() implies '0' <= #[trigger] decimal(n)[i]
            <= '9' by {
            if i < decimal(n / 10).len() {
                assert(decimal(n)[i] == decimal(n / 10)[i]);
            }
        }
        assert(decimal(n)[0] == decimal(n / 10)[0]);
    }
}

/// Segments made with different numbers, by different processes or for different
/// pages have different names.
pub proof fn law_shm_names_are_unique(
    u1: u64,
    u2: u64,
    pid1: u32,
    pid2: u32,
    page1: usize,
    page2: usize,
)
    requires
        shm_name(u1, pid1, page1) == shm_name(u2, pid2, page2),
    ensures
        u1 == u2,
        pid1 == pid2,
        page1 == page2,
{
    reveal_strlit("/bookokrat_");
    reveal_strlit("-");
    let head = "/bookokrat_"@;
    let (a, b) = (shm_name(u1, pid1, page1), shm_name(u2, pid2, page2));
    let (d1, d2) = (decimal(u1 as int), decimal(u2 as int));
    let n = head.len() as int;
    assert(a[n + d1.len()] == '-');
    assert(b[n + d2.len()] == '-');
    assert(forall|i: int| 0 <= i < d1.len() ==> a[n + i] == #[trigger] d1[i]);
    assert(forall|i: int| 0 <= i < d2.len() ==> b[n + i] == #[trigger] d2[i]);
    if d1.len() < d2.len() {
        lemma_decimal_has_no_dash(u2 as int, d1.len() as int);
        assert(b[n + d1.len()] == d2[d1.len() as int]);
    } else if d2.len() < d1.len() {
        lemma_decimal_has_no_dash(u1 as int, d2.len() as int);
        assert(a[n + d2.len()] == d1[d2.len() as int]);
    }
    assert(d1 =~= d2) by {
        assert forall|i: int| 0 <= i < d1.len() implies d1[i] == d2[i] by {
            assert(a[n + i] == d1[i] && b[n + i] == d2[i]);
        }
    }
    lemma_decimal_injective(u1 as int, u2 as int);
    // What follows the number: the process up to the next dash, then the page.
    reveal_strlit("-page-");
    let (e1, e2) = (decimal(pid1 as int), decimal(pid2 as int));
    let (f1, f2) = (decimal(page1 as int), decimal(page2 as int));
    let m = n + d1.len() + 1;
    assert(a[m + e1.len()] == '-');
    assert(b[m + e2.len()] == '-');
    assert(forall|i: int| 0 <= i < e1.len() ==> a[m + i] == #[trigger] e1[i]);
    assert(forall|i: int| 0 <= i < e2.len() ==> b[m + i] == #[trigger] e2[i]);
    if e1.len() < e2.len() {
        lemma_decimal_has_no_dash(pid2 as int, e1.len() as int);
        assert(b[m + e1.len()] == e2[e1.len() as int]);
    } else if e2.len() < e1.len() {
        lemma_decimal_has_no_dash(pid1 as int, e2.len() as int);
        assert(a[m + e2.len()] == e1[e2.len() as int]);
    }
    assert(e1 =~= e2) by {
        assert forall|i: int| 0 <= i < e1.len() implies e1[i] == e2[i] by {
            assert(a[m + i] == e1[i] && b[m + i] == e2[i]);
        }
    }
    lemma_decimal_injective(pid1 as int, pid2 as int);
    let k = m + e1.len() + 6;
    assert(a.len() == k + f1.len() && b.len() == k + f2.len());
    assert(f1 =~= f2) by {
        assert forall|i: int| 0 <= i < f1.len() implies f1[i] == f2[i] by {
            assert(a[k + i] == f1[i] && b[k + i] == f2[i]);
        }
    }
    lemma_decimal_injective(page1 as int, page2 as int);
}

} // verus!
