//! One tokenizer for indexing and querying, so they always agree: lowercase
//! runs of Unicode-alphanumeric characters.
use vstd::prelude::*;
use vstd::string::*;

verus! {

/// Whether a character is alphanumeric, as `char::is_alphanumeric` has it.
pub uninterp spec fn alphanumeric(c: char) -> bool;

/// The lowercase mapping of a character, as `char::to_lowercase` gives it.
pub uninterp spec fn lowercase(c: char) -> Seq<char>;

/// `char::is_alphanumeric`: a function of the character alone. Which
/// characters it accepts is not stated.
#[verifier::external_body]
pub(crate) fn is_alphanumeric(c: char) -> (r: bool)
    ensures
        r == alphanumeric(c),
{
    c.is_alphanumeric()
}

/// `char::to_lowercase`, collected: a function of the character alone, one or
/// more characters. Which ones is not stated.
#[verifier::external_body]
pub(crate) fn to_lowercase(c: char) -> (r: Vec<char>)
    ensures
        r@ == lowercase(c),
        r@.len() >= 1,
{
    c.to_lowercase().collect()
}

/// `String::push`: appends one character.
#[verifier::external_body]
pub(crate) fn push_char(s: &mut String, c: char)
    ensures
        final(s)@ == old(s)@.push(c),
{
    s.push(c)
}

/// A character as the tokenizer sees it.
pub struct GlyphV {
    /// The character by itself.
    pub own: Seq<char>,
    /// It is an ASCII lowercase letter or digit: lowercase already.
    pub plain: bool,
    /// It belongs to a token.
    pub kept: bool,
    /// Its lowercase mapping.
    pub lower: Seq<char>,
}

pub open spec fn is_plain(c: char) -> bool {
    ('a' <= c && c <= 'z') || ('0' <= c && c <= '9')
}

/// What is asked of the characters of a text.
#[derive(Debug)]
pub struct Classes {
    /// Which ones belong to a token.
    pub kept: Vec<bool>,
    /// Their lowercase mappings.
    pub lower: Vec<Vec<char>>,
}

impl Classes {
    /// There is an answer for each of `n` characters.
    pub open spec fn covers(&self, n: int) -> bool {
        self.kept@.len() == n && self.lower@.len() == n
    }

    /// `text` with these answers.
    pub open spec fn applied(&self, text: Seq<char>) -> Seq<GlyphV> {
        Seq::new(
            text.len(),
            |i: int|
                GlyphV {
                    own: seq![text[i]],
                    plain: is_plain(text[i]),
                    kept: self.kept@[i],
                    lower: self.lower@[i]@,
                },
        )
    }
}

pub open spec fn all_plain(run: Seq<GlyphV>) -> bool {
    forall|i: int| 0 <= i < run.len() ==> (#[trigger] run[i]).plain
}

/// The characters of a run.
pub open spec fn spelled(run: Seq<GlyphV>) -> Seq<char>
    decreases run.len(),
{
    if run.len() == 0 {
        Seq::empty()
    } else {
        spelled(run.drop_last()) + run.last().own
    }
}

/// The lowercase mappings of a run, one after the other.
pub open spec fn lowered(run: Seq<GlyphV>) -> Seq<char>
    decreases run.len(),
{
    if run.len() == 0 {
        Seq::empty()
    } else {
        lowered(run.drop_last()) + run.last().lower
    }
}

/// The token of a run.
pub open spec fn token(run: Seq<GlyphV>) -> Seq<char> {
    if all_plain(run) {
        spelled(run)
    } else {
        lowered(run)
    }
}

/// The tokens so far, and the run that is still open.
pub open spec fn scan(gs: Seq<GlyphV>) -> (Seq<Seq<char>>, Seq<GlyphV>)
    decreases gs.len(),
{
    if gs.len() == 0 {
        (Seq::empty(), Seq::empty())
    } else {
        let (done, run) = scan(gs.drop_last());
        if gs.last().kept {
            (done, run.push(gs.last()))
        } else {
            (close(done, run), Seq::empty())
        }
    }
}

/// The tokens once the open run is closed.
pub open spec fn close(done: Seq<Seq<char>>, run: Seq<GlyphV>) -> Seq<Seq<char>> {
    if run.len() == 0 {
        done
    } else {
        done.push(token(run))
    }
}

/// The tokens of classified characters.
pub open spec fn glyph_tokens(gs: Seq<GlyphV>) -> Seq<Seq<char>> {
    close(scan(gs).0, scan(gs).1)
}

/// A text as the tokenizer sees it.
pub open spec fn glyphs(text: Seq<char>) -> Seq<GlyphV> {
    Seq::new(
        text.len(),
        |i: int|
            GlyphV {
                own: seq![text[i]],
                plain: is_plain(text[i]),
                kept: alphanumeric(text[i]),
                lower: lowercase(text[i]),
            },
    )
}

/// The tokens of a text.
pub open spec fn text_tokens(text: Seq<char>) -> Seq<Seq<char>> {
    glyph_tokens(glyphs(text))
}

/// The texts of owned strings.
pub open spec fn strs_view<'a>(v: Seq<&'a str>) -> Seq<Seq<char>> {
    v.map_values(|s: &'a str| s@)
}

pub open spec fn strings_view(v: Seq<String>) -> Seq<Seq<char>> {
    v.map_values(|s: String| s@)
}

/// The characters of a text.
pub fn chars_of(text: &str) -> (r: Vec<char>)
    ensures
        r@ == text@,
{
    let mut out: Vec<char> = Vec::new();
    for c in it: text.chars()
        invariant
            out@ == it.seq().take(it.index()),
            it.seq() == text@,
    {
        out.push(c);
        assert(out@ =~= it.seq().take(it.index() + 1));
    }
    assert(out@ =~= text@);
    out
}

/// Classify each character.
pub fn classify(text: &[char]) -> (r: Classes)
    ensures
        r.covers(text@.len() as int),
        r.applied(text@) == glyphs(text@),
{
    let n: usize = text.len();
    let mut kept: Vec<bool> = Vec::with_capacity(n);
    let mut lower: Vec<Vec<char>> = Vec::with_capacity(n);
    let mut i: usize = 0;
    while i < n
        invariant
            i <= n == text@.len(),
            kept@.len() == i,
            lower@.len() == i,
            forall|j: int| 0 <= j < i ==> #[trigger] kept@[j] == alphanumeric(text@[j]),
            forall|j: int| 0 <= j < i ==> (#[trigger] lower@[j])@ == lowercase(text@[j]),
        decreases n - i,
    {
        kept.push(is_alphanumeric(text[i]));
        lower.push(to_lowercase(text[i]));
        i = i + 1;
    }
    let r: Classes = Classes { kept, lower };
    assert(r.applied(text@) =~= glyphs(text@));
    r
}

fn run_is_plain(text: &[char], from: usize, to: usize, Ghost(c): Ghost<Classes>) -> (r: bool)
    requires
        from <= to <= text@.len(),
    ensures
        r == all_plain(c.applied(text@).subrange(from as int, to as int)),
{
    let ghost run = c.applied(text@).subrange(from as int, to as int);
    let mut i: usize = from;
    while i < to
        invariant
            from <= i <= to <= text@.len(),
            run == c.applied(text@).subrange(from as int, to as int),
            forall|j: int| 0 <= j < i - from ==> (#[trigger] run[j]).plain,
        decreases to - i,
    {
        let ch: char = text[i];
        assert(run[i - from].plain == is_plain(ch));
        if !(('a' <= ch && ch <= 'z') || ('0' <= ch && ch <= '9')) {
            return false;
        }
        i = i + 1;
    }
    true
}

fn run_token(text: &[char], c: &Classes, from: usize, to: usize) -> (r: String)
    requires
        from <= to <= text@.len(),
        c.covers(text@.len() as int),
    ensures
        r@ == token(c.applied(text@).subrange(from as int, to as int)),
{
    let ghost run = c.applied(text@).subrange(from as int, to as int);
    let plain: bool = run_is_plain(text, from, to, Ghost(*c));
    let mut out: String = String::new();
    let mut i: usize = from;
    assert(out@ =~= Seq::empty());
    assert(run.take(0) =~= Seq::empty());
    while i < to
        invariant
            from <= i <= to <= text@.len(),
            c.covers(text@.len() as int),
            run == c.applied(text@).subrange(from as int, to as int),
            plain ==> out@ == spelled(run.take(i - from)),
            !plain ==> out@ == lowered(run.take(i - from)),
        decreases to - i,
    {
        let ghost k = i - from;
        let ghost g = run[k];
        assert(run.take(k + 1).drop_last() =~= run.take(k));
        if plain {
            let ghost was = out@;
            push_char(&mut out, text[i]);
            assert(out@ =~= was + g.own);
        } else {
            let ghost was = out@;
            let lower: &Vec<char> = &c.lower[i];
            let m: usize = lower.len();
            let mut j: usize = 0;
            assert(was + lower@.take(0) =~= was);
            while j < m
                invariant
                    j <= m == lower@.len(),
                    out@ == was + lower@.take(j as int),
                decreases m - j,
            {
                push_char(&mut out, lower[j]);
                assert(was + lower@.take(j + 1) =~= (was + lower@.take(j as int)).push(
                    lower@[j as int],
                ));
                j = j + 1;
            }
            assert(lower@.take(m as int) =~= g.lower);
        }
        i = i + 1;
    }
    assert(run.take(to - from) =~= run);
    out
}

/// The tokens of `text`, given what its characters are.
pub fn tokens_of(text: &[char], c: &Classes) -> (r: Vec<String>)
    requires
        c.covers(text@.len() as int),
    ensures
        strings_view(r@) == glyph_tokens(c.applied(text@)),
{
    let ghost vs = c.applied(text@);
    let n: usize = text.len();
    let mut out: Vec<String> = Vec::new();
    let mut start: usize = 0;
    let mut i: usize = 0;
    assert(vs.take(0) =~= Seq::empty());
    assert(strings_view(out@) =~= Seq::empty());
    assert(vs.subrange(0, 0) =~= Seq::empty());
    while i < n
        invariant
            start <= i <= n == text@.len(),
            c.covers(text@.len() as int),
            vs == c.applied(text@),
            scan(vs.take(i as int)) == (strings_view(out@), vs.subrange(start as int, i as int)),
        decreases n - i,
    {
        assert(vs.take(i + 1).drop_last() =~= vs.take(i as int));
        if !c.kept[i] {
            if start < i {
                let ghost was = out@;
                let t: String = run_token(text, c, start, i);
                out.push(t);
                assert(strings_view(out@) =~= strings_view(was).push(t@));
            }
            start = i + 1;
            assert(vs.subrange(start as int, i + 1) =~= Seq::empty());
        } else {
            assert(vs.subrange(start as int, i + 1) =~= vs.subrange(start as int, i as int).push(
                vs[i as int],
            ));
        }
        i = i + 1;
    }
    assert(vs.take(n as int) =~= vs);
    if start < n {
        let ghost was = out@;
        let t: String = run_token(text, c, start, n);
        out.push(t);
        assert(strings_view(out@) =~= strings_view(was).push(t@));
    }
    out
}

/// The lowercase tokens (Unicode-alphanumeric runs) of `text`, in order.
pub fn tokens(text: &str) -> (r: Vec<String>)
    ensures
        strings_view(r@) == text_tokens(text@),
{
    let chars: Vec<char> = chars_of(text);
    tokens_of(chars.as_slice(), &classify(chars.as_slice()))
}

// ---- URLs -----------------------------------------------------------------

/// `"://"` stands at `i`.
pub open spec fn scheme_ends(url: Seq<char>, i: int) -> bool {
    &&& 0 <= i
    &&& i + 3 <= url.len()
    &&& url[i] == ':'
    &&& url[i + 1] == '/'
    &&& url[i + 2] == '/'
}

/// Where the first `"://"` from `i` on stands.
pub open spec fn scheme_end(url: Seq<char>, i: int) -> Option<int>
    decreases url.len() - i,
{
    if i >= url.len() {
        None
    } else if scheme_ends(url, i) {
        Some(i)
    } else {
        scheme_end(url, i + 1)
    }
}

/// A URL without its scheme.
pub open spec fn searchable(url: Seq<char>) -> Seq<char> {
    match scheme_end(url, 0) {
        Some(i) => url.skip(i + 3),
        None => url,
    }
}

/// The tokens of a URL, its scheme left out.
pub fn url_tokens(url: &str) -> (r: Vec<String>)
    ensures
        strings_view(r@) == text_tokens(searchable(url@)),
{
    let chars: Vec<char> = chars_of(url);
    let n: usize = chars.len();
    let mut i: usize = 0;
    while i < n
        invariant
            i <= n == chars@.len(),
            chars@ == url@,
            scheme_end(url@, 0) == scheme_end(url@, i as int),
        decreases n - i,
    {
        if n - i >= 3 && chars[i] == ':' && chars[i + 1] == '/' && chars[i + 2] == '/' {
            let rest: &[char] = vstd::slice::slice_subrange(chars.as_slice(), i + 3, n);
            assert(rest@ =~= url@.skip(i + 3));
            return tokens_of(rest, &classify(rest));
        }
        i = i + 1;
    }
    tokens_of(chars.as_slice(), &classify(chars.as_slice()))
}

// ---- laws -----------------------------------------------------------------

/// Tokens of an all-lowercase ASCII run are the run itself: plain text is
/// indexed as it stands.
pub proof fn law_plain_runs_stand(gs: Seq<GlyphV>)
    requires
        gs.len() > 0,
        all_plain(gs),
        forall|i: int| 0 <= i < gs.len() ==> (#[trigger] gs[i]).kept,
    ensures
        glyph_tokens(gs) == seq![spelled(gs)],
{
    lemma_scan_kept(gs);
}

pub(crate) proof fn lemma_scan_kept(gs: Seq<GlyphV>)
    requires
        forall|i: int| 0 <= i < gs.len() ==> (#[trigger] gs[i]).kept,
    ensures
        scan(gs) == (Seq::<Seq<char>>::empty(), gs),
    decreases gs.len(),
{
    if gs.len() > 0 {
        let pre = gs.drop_last();
        assert forall|i: int| 0 <= i < pre.len() implies (#[trigger] pre[i]).kept by {
            assert(pre[i] == gs[i]);
        }
        lemma_scan_kept(pre);
        assert(gs[gs.len() - 1].kept);
        assert(pre.push(gs.last()) =~= gs);
    } else {
        assert(gs =~= Seq::empty());
    }
}

/// A separator between two texts keeps their tokens apart.
pub proof fn law_separators_split(a: Seq<GlyphV>, sep: GlyphV, b: Seq<GlyphV>)
    requires
        !sep.kept,
    ensures
        glyph_tokens(a.push(sep) + b) == glyph_tokens(a) + glyph_tokens(b),
{
    lemma_scan_after(a, sep, b);
    let x = glyph_tokens(a);
    let (done, run) = scan(b);
    if run.len() > 0 {
        assert((x + done).push(token(run)) =~= x + done.push(token(run)));
    }
}

proof fn lemma_scan_after(a: Seq<GlyphV>, sep: GlyphV, b: Seq<GlyphV>)
    requires
        !sep.kept,
    ensures
        scan(a.push(sep) + b) == (glyph_tokens(a) + scan(b).0, scan(b).1),
    decreases b.len(),
{
    let all = a.push(sep) + b;
    let x = glyph_tokens(a);
    if b.len() == 0 {
        assert(all =~= a.push(sep));
        assert(a.push(sep).drop_last() =~= a);
        assert(x + scan(b).0 =~= x);
    } else {
        lemma_scan_after(a, sep, b.drop_last());
        assert(all.drop_last() =~= a.push(sep) + b.drop_last());
        assert(all.last() == b.last());
        let (done, run) = scan(b.drop_last());
        if !b.last().kept && run.len() > 0 {
            assert((x + done).push(token(run)) =~= x + done.push(token(run)));
        }
    }
}

} // verus!
