//! The configured globs as an override matcher of the `ignore` crate.
//!
//! In `ignore`'s overrides a plain glob is a *whitelist* (include only) and a
//! `!`-prefixed glob is an *exclude*.

use vstd::prelude::*;
use crate::config;
use crate::config::Config;
use crate::error::{Error, ErrorView};
use crate::text;

verus! {

/// `ignore::overrides::OverrideBuilder`, which nothing here looks into.
#[verifier::external_type_specification]
#[verifier::external_body]
pub struct ExOverrideBuilder(ignore::overrides::OverrideBuilder);

/// `ignore::overrides::Override`, which nothing here looks into.
#[verifier::external_type_specification]
#[verifier::external_body]
pub struct ExOverride(ignore::overrides::Override);

/// The glob lines that an override builder holds, in the order in which they
/// were added.
pub uninterp spec fn builder_lines(b: ignore::overrides::OverrideBuilder) -> Seq<Seq<char>>;

/// The directory that an override builder's globs are relative to.
pub uninterp spec fn builder_root(b: ignore::overrides::OverrideBuilder) -> Seq<char>;

/// An override builder matches case and takes no unclosed character class, as
/// one that was just made does.
pub uninterp spec fn builder_strict(b: ignore::overrides::OverrideBuilder) -> bool;

/// The glob lines that an override matcher holds, in order.
pub uninterp spec fn override_lines(o: ignore::overrides::Override) -> Seq<Seq<char>>;

/// The directory that an override matcher's globs are relative to.
pub uninterp spec fn override_root(o: ignore::overrides::Override) -> Seq<char>;

/// Why a strict builder refuses a portable glob, if it does. It depends on the
/// text of the glob alone.
pub uninterp spec fn glob_problem(glob: Seq<char>) -> Option<Seq<char>>;

/// A text without the white space that it ends with.
pub open spec fn trimmed(s: Seq<char>) -> Seq<char>
    decreases s.len(),
{
    if s.len() > 0 && text::is_white_space(s.last()) {
        trimmed(s.drop_last())
    } else {
        s
    }
}

/// The line that a glob adds to a builder: none for a comment or a blank glob;
/// white space at its end does not count unless it is escaped.
pub open spec fn line_of(glob: Seq<char>) -> Option<Seq<char>> {
    let escaped = glob.len() >= 2 && glob[glob.len() - 2] == '\\' && glob.last() == ' ';
    let line = if escaped {
        glob
    } else {
        trimmed(glob)
    };
    if (glob.len() > 0 && glob[0] == '#') || line.len() == 0 {
        None
    } else {
        Some(line)
    }
}

/// No backslash stands directly behind `**` in a glob. One that does is a
/// separator on some platforms and an escape on others, so that whether the glob
/// can be parsed depends on the platform.
pub open spec fn portable(glob: Seq<char>) -> bool {
    forall|i: int|
        2 <= i < glob.len() && #[trigger] glob[i] == '\\' ==> !(glob[i - 1] == '*' && glob[i - 2]
            == '*')
}

/// The deepest nesting of braces in a glob that is handed on. The regular
/// expressions that globs are built into take no deeper nesting.
pub const BRACE_LIMIT: usize = 250;

/// Nothing in a glob can keep a closing brace from closing: it holds no escape and
/// no character class.
pub open spec fn unguarded(glob: Seq<char>) -> bool {
    !glob.contains('\\') && !glob.contains('[')
}

/// How many braces are open at the end of a glob, at most. A closing brace closes
/// one only if `closing`.
pub open spec fn open_braces(glob: Seq<char>, closing: bool) -> nat
    decreases glob.len(),
{
    if glob.len() == 0 {
        0
    } else {
        let n = open_braces(glob.drop_last(), closing);
        if glob.last() == '{' {
            n + 1
        } else if glob.last() == '}' && closing && n > 0 {
            (n - 1) as nat
        } else {
            n
        }
    }
}

/// How many braces are open at once anywhere in a glob, at most.
pub open spec fn deepest(glob: Seq<char>, closing: bool) -> nat
    decreases glob.len(),
{
    if glob.len() == 0 {
        0
    } else {
        let n = deepest(glob.drop_last(), closing);
        let m = open_braces(glob, closing);
        if m > n {
            m
        } else {
            n
        }
    }
}

/// How deep the braces of a glob are nested, at most: every opening brace counts,
/// and a closing one where nothing can guard it.
pub open spec fn brace_depth(glob: Seq<char>) -> nat {
    deepest(glob, unguarded(glob))
}

/// The size of a text: at least the number of its bytes, and one.
pub open spec fn size(s: Seq<char>) -> nat
    decreases s.len(),
{
    if s.len() == 0 {
        1
    } else {
        size(s.drop_last()) + if (s.last() as u32) < 128 {
            1nat
        } else {
            4nat
        }
    }
}

/// The sizes of some texts together.
pub open spec fn sizes(texts: Seq<Seq<char>>) -> nat
    decreases texts.len(),
{
    if texts.len() == 0 {
        0
    } else {
        sizes(texts.drop_last()) + size(texts.last())
    }
}

/// What globs may amount to together: their number times their size. A matcher of
/// literal globs numbers its states, and the globs that end in each of them, with
/// 31 bits.
pub const MATCHER_LIMIT: u64 = 0x4000_0000;

/// What some lines amount to together.
pub open spec fn bulk(lines: Seq<Seq<char>>) -> nat {
    lines.len() * sizes(lines)
}

/// `lines` with the line of a glob added.
pub open spec fn with_line(lines: Seq<Seq<char>>, glob: Seq<char>) -> Seq<Seq<char>> {
    match line_of(glob) {
        Some(line) => lines.push(line),
        None => lines,
    }
}

/// `ignore::overrides::OverrideBuilder::new`: an empty, strict builder for the
/// directory. Nothing is said of the directory that it keeps where the text
/// begins with a dot, since how a leading `./` is stripped depends on the
/// platform.
#[verifier::external_body]
pub(crate) fn new_builder(root: &str) -> (r: ignore::overrides::OverrideBuilder)
    ensures
        builder_lines(r) == Seq::<Seq<char>>::empty(),
        builder_strict(r),
        root@.len() == 0 || root@[0] != '.' ==> builder_root(r) == root@,
{
    ignore::overrides::OverrideBuilder::new(root)
}

/// `ignore::overrides::OverrideBuilder::add`: adds the line of a glob, or
/// leaves the builder as it is and says why the glob cannot be parsed. Which of
/// the two it does is said of portable globs only: of others it depends on the
/// platform. Parsing nested braces recurses, so their depth is limited.
#[verifier::external_body]
pub(crate) fn add_glob(b: &mut ignore::overrides::OverrideBuilder, glob: &str) -> (r: Result<
    (),
    String,
>)
    requires
        builder_strict(*old(b)),
        brace_depth(glob@) <= BRACE_LIMIT,
    ensures
        builder_strict(*final(b)),
        builder_root(*final(b)) == builder_root(*old(b)),
        r is Ok ==> builder_lines(*final(b)) == with_line(builder_lines(*old(b)), glob@),
        r is Err ==> builder_lines(*final(b)) == builder_lines(*old(b)),
        portable(glob@) ==> match glob_problem(glob@) {
            None => r is Ok,
            Some(e) => r matches Err(m) && m@ == e,
        },
{
    match b.add(glob) {
        Ok(_) => Ok(()),
        Err(e) => Err(e.to_string()),
    }
}

/// `ignore::overrides::OverrideBuilder::build`: a matcher of the builder's
/// lines, relative to its directory. Without lines it succeeds, and the matcher
/// keeps no directory. Whether the lines together make too large a matcher, and
/// what the message then is, is left unsaid: that depends on the machine. Lines
/// for which a literal matcher could run out of numbers are left out, since the
/// call panics then.
#[verifier::external_body]
pub(crate) fn build_matcher(b: &ignore::overrides::OverrideBuilder) -> (r: Result<
    ignore::overrides::Override,
    String,
>)
    requires
        bulk(builder_lines(*b)) <= MATCHER_LIMIT,
    ensures
        builder_lines(*b).len() == 0 ==> r is Ok,
        r matches Ok(o) ==> override_lines(o) == builder_lines(*b),
        r matches Ok(o) ==> builder_lines(*b).len() > 0 ==> override_root(o) == builder_root(*b),
{
    match b.build() {
        Ok(o) => Ok(o),
        Err(e) => Err(e.to_string()),
    }
}

/// A glob with the mark that it is added with.
pub open spec fn marked(mark: Seq<char>, glob: Seq<char>) -> Seq<char> {
    mark + glob
}

/// A glob may be taken: its braces are not nested too deeply, and where its text
/// alone decides, it can be parsed.
pub open spec fn taken(mark: Seq<char>, glob: Seq<char>) -> bool {
    let g = marked(mark, glob);
    brace_depth(g) <= BRACE_LIMIT && (portable(g) ==> glob_problem(g) is None)
}

/// Why a glob may be refused: `e` is said of it because its braces are nested too
/// deeply, or because it cannot be parsed; where its text alone decides, `e` is
/// what it decides.
pub open spec fn faulted(mark: Seq<char>, glob: Seq<char>, e: Seq<char>) -> bool {
    let g = marked(mark, glob);
    if brace_depth(g) > BRACE_LIMIT {
        e == "braces are nested too deeply"@
    } else {
        portable(g) ==> glob_problem(g) == Some(e)
    }
}

/// What is said of a glob that is refused.
pub open spec fn complaint(label: Seq<char>, glob: Seq<char>, e: Seq<char>) -> Seq<char> {
    label + text::quoted_text(glob) + ": "@ + e
}

/// All of some globs may be taken.
pub open spec fn all_taken(mark: Seq<char>, globs: Seq<Seq<char>>) -> bool {
    forall|i: int| 0 <= i < globs.len() ==> taken(mark, #[trigger] globs[i])
}

/// `m` is said of the glob in place `i`, and all before it may be taken.
pub open spec fn refused_at(
    label: Seq<char>,
    mark: Seq<char>,
    globs: Seq<Seq<char>>,
    i: int,
    m: Seq<char>,
) -> bool {
    &&& 0 <= i < globs.len()
    &&& all_taken(mark, globs.take(i))
    &&& exists|e: Seq<char>|
        faulted(mark, globs[i], e) && m == #[trigger] complaint(label, globs[i], e)
}

/// `m` is said of the first of some globs that is refused.
pub open spec fn refused(
    label: Seq<char>,
    mark: Seq<char>,
    globs: Seq<Seq<char>>,
    m: Seq<char>,
) -> bool {
    exists|i: int| #[trigger] refused_at(label, mark, globs, i, m)
}

/// `lines` with the lines of some globs added.
pub open spec fn with_lines(
    lines: Seq<Seq<char>>,
    mark: Seq<char>,
    globs: Seq<Seq<char>>,
) -> Seq<Seq<char>>
    decreases globs.len(),
{
    if globs.len() == 0 {
        lines
    } else {
        with_line(with_lines(lines, mark, globs.drop_last()), marked(mark, globs.last()))
    }
}

/// The globs that a configuration narrows the walk to: none if its list is the
/// universal catch-all.
pub open spec fn whitelist(cfg: Config) -> Seq<Seq<char>> {
    let globs = config::texts(cfg.scan.includes@);
    if config::catch_all(globs) {
        Seq::empty()
    } else {
        globs
    }
}

/// The override lines of a configuration.
pub open spec fn lines(cfg: Config) -> Seq<Seq<char>> {
    with_lines(
        with_lines(Seq::empty(), Seq::empty(), whitelist(cfg)),
        seq!['!'],
        config::texts(cfg.scan.exclude@),
    )
}

/// What the globs of a configuration amount to together.
pub open spec fn amount(cfg: Config) -> nat {
    let n = whitelist(cfg).len() + cfg.scan.exclude@.len();
    n * (marked_sizes(Seq::empty(), whitelist(cfg)) + marked_sizes(
        seq!['!'],
        config::texts(cfg.scan.exclude@),
    ))
}

/// The sizes of some globs together, each with its mark.
pub open spec fn marked_sizes(mark: Seq<char>, globs: Seq<Seq<char>>) -> nat {
    sizes(globs.map_values(|g: Seq<char>| marked(mark, g)))
}

/// How deep the braces of a glob are nested, at most.
fn nesting(glob: &str) -> (r: usize)
    ensures
        r == brace_depth(glob@),
{
    let cs = text::characters(glob);
    let mut closing = true;
    let mut k: usize = 0;
    while k < cs.len()
        invariant
            cs@ == glob@,
            k <= cs@.len(),
            closing == unguarded(glob@.take(k as int)),
        decreases cs@.len() - k,
    {
        let ghost was = glob@.take(k as int);
        proof {
            assert(glob@.take(k + 1) =~= was.push(cs@[k as int]));
            lemma_guard_step(was, cs@[k as int]);
        }
        if cs[k] == '\\' || cs[k] == '[' {
            closing = false;
        }
        k = k + 1;
    }
    assert(glob@.take(cs@.len() as int) =~= glob@);
    let mut open: usize = 0;
    let mut most: usize = 0;
    let mut i: usize = 0;
    while i < cs.len()
        invariant
            cs@ == glob@,
            i <= cs@.len(),
            closing == unguarded(glob@),
            open <= i,
            open == open_braces(glob@.take(i as int), closing),
            most == deepest(glob@.take(i as int), closing),
        decreases cs@.len() - i,
    {
        proof {
            assert(glob@.take(i + 1).drop_last() =~= glob@.take(i as int));
            assert(glob@.take(i + 1).last() == cs@[i as int]);
        }
        if cs[i] == '{' {
            open = open + 1;
        } else if cs[i] == '}' && closing && open > 0 {
            open = open - 1;
        }
        if open > most {
            most = open;
        }
        i = i + 1;
    }
    assert(glob@.take(cs@.len() as int) =~= glob@);
    most
}

proof fn lemma_guard_step(s: Seq<char>, c: char)
    ensures
        unguarded(s.push(c)) == (unguarded(s) && c != '\\' && c != '['),
{
    let t = s.push(c);
    assert(t[s.len() as int] == c);
    assert forall|x: char| #[trigger] t.contains(x) <==> s.contains(x) || x == c by {
        if s.contains(x) {
            let i = choose|i: int| 0 <= i < s.len() && s[i] == x;
            assert(t[i] == x);
        }
    }
}

/// The size of a text added to `sum`; past the limit any number past it.
fn add_size(sum: u64, glob: &str) -> (r: u64)
    requires
        sum <= MATCHER_LIMIT,
    ensures
        r <= MATCHER_LIMIT ==> r == sum + size(glob@),
        r > MATCHER_LIMIT ==> sum + size(glob@) > MATCHER_LIMIT,
{
    let cs = text::characters(glob);
    let mut r: u64 = sum + 1;
    let mut i: usize = 0;
    while i < cs.len()
        invariant
            cs@ == glob@,
            i <= cs@.len(),
            sum <= MATCHER_LIMIT,
            r <= MATCHER_LIMIT + 1,
            r == sum + size(glob@.take(i as int)),
        decreases cs@.len() - i,
    {
        proof {
            assert(glob@.take(i + 1).drop_last() =~= glob@.take(i as int));
            assert(glob@.take(i + 1).last() == cs@[i as int]);
            lemma_size_grows(glob@, i + 1);
        }
        r = r + if (cs[i] as u32) < 128 {
            1
        } else {
            4
        };
        i = i + 1;
        if r > MATCHER_LIMIT {
            return r;
        }
    }
    assert(glob@.take(cs@.len() as int) =~= glob@);
    r
}

/// A text is no smaller than what it begins with.
proof fn lemma_size_grows(s: Seq<char>, n: int)
    requires
        0 <= n <= s.len(),
    ensures
        1 <= size(s.take(n)) <= size(s),
    decreases s.len(),
{
    if n == s.len() {
        assert(s.take(n) =~= s);
        if n > 0 {
            lemma_size_grows(s.drop_last(), n - 1);
        }
    } else {
        assert(s.drop_last().take(n) =~= s.take(n));
        lemma_size_grows(s.drop_last(), n);
    }
}

/// The sizes of marked globs added to `sum`; past the limit any number past it.
fn add_sizes(sum: u64, mark: &str, globs: &Vec<String>) -> (r: u64)
    requires
        sum <= MATCHER_LIMIT,
    ensures
        r <= MATCHER_LIMIT ==> r == sum + marked_sizes(mark@, config::texts(globs@)),
        r > MATCHER_LIMIT ==> sum + marked_sizes(mark@, config::texts(globs@)) > MATCHER_LIMIT,
{
    let ghost all = config::texts(globs@).map_values(|g: Seq<char>| marked(mark@, g));
    let mut r: u64 = sum;
    let mut i: usize = 0;
    while i < globs.len()
        invariant
            i <= globs@.len(),
            all == config::texts(globs@).map_values(|g: Seq<char>| marked(mark@, g)),
            sum <= MATCHER_LIMIT,
            r <= MATCHER_LIMIT,
            r == sum + sizes(all.take(i as int)),
        decreases globs@.len() - i,
    {
        let g = text::join(mark, globs[i].as_str());
        proof {
            assert(all.take(i + 1).drop_last() =~= all.take(i as int));
            assert(all.take(i + 1).last() == g@);
            lemma_sizes_grow(all, i + 1);
        }
        r = add_size(r, g.as_str());
        if r > MATCHER_LIMIT {
            return r;
        }
        i = i + 1;
    }
    assert(all.take(globs@.len() as int) =~= all);
    r
}

/// Some texts are no smaller than the first of them.
proof fn lemma_sizes_grow(texts: Seq<Seq<char>>, n: int)
    requires
        0 <= n <= texts.len(),
    ensures
        sizes(texts.take(n)) <= sizes(texts),
        texts.len() <= sizes(texts),
    decreases texts.len(),
{
    if texts.len() > 0 {
        lemma_size_grows(texts.last(), 0);
        if n == texts.len() {
            assert(texts.take(n) =~= texts);
            lemma_sizes_grow(texts.drop_last(), 0);
        } else {
            assert(texts.drop_last().take(n) =~= texts.take(n));
            lemma_sizes_grow(texts.drop_last(), n);
        }
    } else {
        assert(texts.take(n) =~= texts);
    }
}

/// Whether the globs of a configuration amount to more than a matcher may hold.
fn is_excessive(cfg: &Config) -> (r: bool)
    ensures
        r == (amount(*cfg) > MATCHER_LIMIT),
{
    let none: Vec<String> = Vec::new();
    let narrow = !cfg.include_is_catch_all();
    let globs = if narrow {
        &cfg.scan.includes
    } else {
        &none
    };
    let ghost white = whitelist(*cfg);
    let ghost black = config::texts(cfg.scan.exclude@);
    let ghost n = white.len() + black.len();
    let ghost w = marked_sizes(Seq::empty(), white);
    let ghost x = marked_sizes(seq!['!'], black);
    proof {
        reveal_strlit("");
        reveal_strlit("!");
        assert(""@ =~= Seq::<char>::empty());
        assert("!"@ =~= seq!['!']);
        assert(config::texts(globs@) =~= white);
        lemma_sizes_grow(white.map_values(|g: Seq<char>| marked(Seq::empty(), g)), 0);
        lemma_sizes_grow(black.map_values(|g: Seq<char>| marked(seq!['!'], g)), 0);
        assert(w + x > MATCHER_LIMIT ==> n * (w + x) > MATCHER_LIMIT) by {
            lemma_product(n, w + x, MATCHER_LIMIT as nat);
            if n == 0 {
                assert(white.map_values(|g: Seq<char>| marked(Seq::empty(), g)).len() == 0);
                assert(black.map_values(|g: Seq<char>| marked(seq!['!'], g)).len() == 0);
            }
        }
    }
    let first: u64 = add_sizes(0, "", globs);
    if first > MATCHER_LIMIT {
        return true;
    }
    let all: u64 = add_sizes(first, "!", &cfg.scan.exclude);
    if all > MATCHER_LIMIT {
        return true;
    }
    assert(n <= all);
    let count: u64 = globs.len() as u64 + cfg.scan.exclude.len() as u64;
    assert(count * all <= MATCHER_LIMIT * MATCHER_LIMIT) by (nonlinear_arith)
        requires
            count <= all,
            all <= MATCHER_LIMIT,
    ;
    count * all > MATCHER_LIMIT
}

proof fn lemma_product(a: nat, b: nat, limit: nat)
    ensures
        a > 0 && b > limit ==> a * b > limit,
{
    assert(a > 0 && b > limit ==> a * b > limit) by (nonlinear_arith);
}

/// Adds some globs, each with `mark` before it.
fn add_all(
    b: &mut ignore::overrides::OverrideBuilder,
    label: &str,
    mark: &str,
    globs: &Vec<String>,
) -> (r: Result<(), Error>)
    requires
        builder_strict(*old(b)),
    ensures
        builder_strict(*final(b)),
        builder_root(*final(b)) == builder_root(*old(b)),
        match r {
            Ok(_) => all_taken(mark@, config::texts(globs@)) && builder_lines(*final(b))
                == with_lines(builder_lines(*old(b)), mark@, config::texts(globs@)),
            Err(e) => e@ matches ErrorView::Walk(m) && refused(
                label@,
                mark@,
                config::texts(globs@),
                m,
            ),
        },
{
    let ghost all = config::texts(globs@);
    let ghost was = builder_lines(*b);
    let mut i: usize = 0;
    while i < globs.len()
        invariant
            i <= globs@.len(),
            all == config::texts(globs@),
            builder_strict(*b),
            builder_root(*b) == builder_root(*old(b)),
            was == builder_lines(*old(b)),
            all_taken(mark@, all.take(i as int)),
            builder_lines(*b) == with_lines(was, mark@, all.take(i as int)),
        decreases globs@.len() - i,
    {
        let g = globs[i].as_str();
        let full = text::join(mark, g);
        proof {
            assert(all.take(i + 1).drop_last() =~= all.take(i as int));
            assert(all.take(i + 1).last() == g@);
            assert(full@ == marked(mark@, g@));
        }
        let problem: Option<String> = if nesting(full.as_str()) > BRACE_LIMIT {
            Some("braces are nested too deeply".to_owned())
        } else {
            match add_glob(b, full.as_str()) {
                Ok(_) => None,
                Err(e) => Some(e),
            }
        };
        match problem {
            Some(e) => {
                let mut m = label.to_owned();
                m.append(text::quoted(g).as_str());
                m.append(": ");
                m.append(e.as_str());
                proof {
                    assert(faulted(mark@, g@, e@));
                    assert(m@ == complaint(label@, g@, e@));
                    assert(refused_at(label@, mark@, all, i as int, m@));
                }
                return Err(Error::Walk(m));
            },
            None => {},
        }
        assert forall|j: int| 0 <= j < i + 1 implies taken(
            mark@,
            #[trigger] all.take(i + 1)[j],
        ) by {
            if j < i {
                assert(all.take(i + 1)[j] == all.take(i as int)[j]);
            }
        }
        i = i + 1;
    }
    assert(all.take(globs@.len() as int) =~= all);
    Ok(())
}

/// The line of a glob is no larger than the glob.
proof fn lemma_line_size(glob: Seq<char>)
    ensures
        line_of(glob) matches Some(line) ==> size(line) <= size(glob),
{
    lemma_trimmed(glob);
}

proof fn lemma_trimmed(s: Seq<char>)
    ensures
        size(trimmed(s)) <= size(s),
    decreases s.len(),
{
    if s.len() > 0 && text::is_white_space(s.last()) {
        lemma_trimmed(s.drop_last());
    }
}

/// Lines are no more and no larger than the globs that they are of.
proof fn lemma_lines_size(lines: Seq<Seq<char>>, mark: Seq<char>, globs: Seq<Seq<char>>)
    ensures
        sizes(with_lines(lines, mark, globs)) <= sizes(lines) + marked_sizes(mark, globs),
        with_lines(lines, mark, globs).len() <= lines.len() + globs.len(),
    decreases globs.len(),
{
    let all = globs.map_values(|g: Seq<char>| marked(mark, g));
    if globs.len() > 0 {
        let t = globs.drop_last();
        lemma_lines_size(lines, mark, t);
        assert(all.drop_last() =~= t.map_values(|g: Seq<char>| marked(mark, g)));
        assert(all.last() == marked(mark, globs.last()));
        let before = with_lines(lines, mark, t);
        lemma_line_size(marked(mark, globs.last()));
        if let Some(line) = line_of(marked(mark, globs.last())) {
            assert(before.push(line).drop_last() =~= before);
        }
    }
}

/// The lines of a configuration amount to no more than its globs.
proof fn lemma_bulk(cfg: Config)
    ensures
        bulk(lines(cfg)) <= amount(cfg),
{
    let white = whitelist(cfg);
    let black = config::texts(cfg.scan.exclude@);
    let first = with_lines(Seq::empty(), Seq::empty(), white);
    lemma_lines_size(Seq::empty(), Seq::empty(), white);
    lemma_lines_size(first, seq!['!'], black);
    let l = lines(cfg);
    let n = white.len() + black.len();
    let w = marked_sizes(Seq::empty(), white) + marked_sizes(seq!['!'], black);
    assert(l.len() * sizes(l) <= n * w) by (nonlinear_arith)
        requires
            l.len() <= n,
            sizes(l) <= w,
    ;
}

/// What is said of globs that cannot be built together.
pub fn build_failure(reason: &str) -> (r: Error)
    ensures
        r@ == ErrorView::Walk("override build: "@ + reason@),
{
    Error::Walk(text::join("override build: ", reason))
}

/// `m` is said of the first glob of a configuration that is refused.
pub open spec fn glob_refused(cfg: Config, m: Seq<char>) -> bool {
    ||| refused("bad include glob "@, Seq::empty(), whitelist(cfg), m)
    ||| all_taken(Seq::empty(), whitelist(cfg)) && refused(
        "bad exclude glob "@,
        seq!['!'],
        config::texts(cfg.scan.exclude@),
        m,
    )
}

/// Every glob of a configuration may be taken.
pub open spec fn globs_taken(cfg: Config) -> bool {
    all_taken(Seq::empty(), whitelist(cfg)) && all_taken(
        seq!['!'],
        config::texts(cfg.scan.exclude@),
    )
}

/// Turn the configured include and exclude globs into an `ignore` override matcher.
///
/// The universal include `**/*` is treated as "no whitelist" so it does not
/// accidentally narrow the walk.
pub fn build_overrides(root: &str, cfg: &Config) -> (r: Result<
    ignore::overrides::Override,
    Error,
>)
    ensures
        match r {
            Ok(o) => {
                &&& globs_taken(*cfg)
                &&& amount(*cfg) <= MATCHER_LIMIT
                &&& override_lines(o) == lines(*cfg)
                &&& lines(*cfg).len() > 0 && (root@.len() == 0 || root@[0] != '.')
                    ==> override_root(o) == root@
            },
            Err(e) => e@ matches ErrorView::Walk(m) && (glob_refused(*cfg, m) || (globs_taken(*cfg)
                && if amount(*cfg) > MATCHER_LIMIT {
                m == "override build: too many globs"@
            } else {
                lines(*cfg).len() > 0 && exists|reason: Seq<char>|
                    m == #[trigger] ("override build: "@ + reason)
            })),
        },
{
    let mut b = new_builder(root);
    proof {
        reveal_strlit("");
        reveal_strlit("!");
        assert(""@ =~= Seq::<char>::empty());
        assert("!"@ =~= seq!['!']);
        lemma_bulk(*cfg);
    }
    if !cfg.include_is_catch_all() {
        match add_all(&mut b, "bad include glob ", "", &cfg.scan.includes) {
            Ok(_) => {},
            Err(e) => return Err(e),
        }
    }
    match add_all(&mut b, "bad exclude glob ", "!", &cfg.scan.exclude) {
        Ok(_) => {},
        Err(e) => return Err(e),
    }
    if is_excessive(cfg) {
        return Err(Error::Walk("override build: too many globs".to_owned()));
    }
    match build_matcher(&b) {
        Ok(o) => Ok(o),
        Err(reason) => Err(build_failure(reason.as_str())),
    }
}

// --- laws ----------------------------------------------------------------------------

/// Every glob of a configuration is portable.
pub open spec fn all_portable(cfg: Config) -> bool {
    &&& forall|i: int|
        0 <= i < whitelist(cfg).len() ==> portable(
            marked(Seq::empty(), #[trigger] whitelist(cfg)[i]),
        )
    &&& forall|i: int|
        0 <= i < cfg.scan.exclude@.len() ==> portable(
            marked(seq!['!'], #[trigger] config::texts(cfg.scan.exclude@)[i]),
        )
}

/// Portable globs are judged alike everywhere: either all are taken or one is
/// refused, never both, and there is one thing that can be said of it.
pub proof fn law_portable_globs_are_judged_alike(cfg: Config, m: Seq<char>, m2: Seq<char>)
    requires
        all_portable(cfg),
    ensures
        glob_refused(cfg, m) ==> !globs_taken(cfg),
        glob_refused(cfg, m) && glob_refused(cfg, m2) ==> m == m2,
        !globs_taken(cfg) ==> exists|x: Seq<char>| glob_refused(cfg, x),
{
    let white = whitelist(cfg);
    let black = config::texts(cfg.scan.exclude@);
    lemma_judged("bad include glob "@, Seq::empty(), white, m, m2);
    lemma_judged("bad exclude glob "@, seq!['!'], black, m, m2);
    if !globs_taken(cfg) {
        if !all_taken(Seq::empty(), white) {
            let x = choose|x: Seq<char>| refused("bad include glob "@, Seq::empty(), white, x);
            assert(glob_refused(cfg, x));
        } else {
            let x = choose|x: Seq<char>| refused("bad exclude glob "@, seq!['!'], black, x);
            assert(glob_refused(cfg, x));
        }
    }
}

proof fn lemma_judged(
    label: Seq<char>,
    mark: Seq<char>,
    globs: Seq<Seq<char>>,
    m: Seq<char>,
    m2: Seq<char>,
)
    requires
        forall|i: int| 0 <= i < globs.len() ==> portable(marked(mark, #[trigger] globs[i])),
    ensures
        refused(label, mark, globs, m) ==> !all_taken(mark, globs),
        refused(label, mark, globs, m) && refused(label, mark, globs, m2) ==> m == m2,
        !all_taken(mark, globs) ==> exists|x: Seq<char>| refused(label, mark, globs, x),
{
    if refused(label, mark, globs, m) {
        let i = choose|i: int| #[trigger] refused_at(label, mark, globs, i, m);
        assert(!taken(mark, globs[i]));
        if refused(label, mark, globs, m2) {
            let j = choose|j: int| #[trigger] refused_at(label, mark, globs, j, m2);
            assert(!taken(mark, globs[j]));
            if i < j {
                assert(globs.take(j)[i] == globs[i]);
            } else if j < i {
                assert(globs.take(i)[j] == globs[j]);
            }
        }
    }
    if !all_taken(mark, globs) {
        let i = choose|i: int| 0 <= i < globs.len() && !taken(mark, #[trigger] globs[i]);
        lemma_first_refused(label, mark, globs, i);
    }
}

/// Of portable globs of which one may not be taken, some is refused first.
proof fn lemma_first_refused(label: Seq<char>, mark: Seq<char>, globs: Seq<Seq<char>>, i: int)
    requires
        forall|j: int| 0 <= j < globs.len() ==> portable(marked(mark, #[trigger] globs[j])),
        0 <= i < globs.len(),
        !taken(mark, globs[i]),
    ensures
        exists|x: Seq<char>| refused(label, mark, globs, x),
    decreases i,
{
    if all_taken(mark, globs.take(i)) {
        let g = marked(mark, globs[i]);
        let e = if brace_depth(g) > BRACE_LIMIT {
            "braces are nested too deeply"@
        } else {
            glob_problem(g)->0
        };
        let m = complaint(label, globs[i], e);
        assert(faulted(mark, globs[i], e));
        assert(refused_at(label, mark, globs, i, m));
        assert(refused(label, mark, globs, m));
    } else {
        let j = choose|j: int| 0 <= j < i && !taken(mark, #[trigger] globs.take(i)[j]);
        assert(globs.take(i)[j] == globs[j]);
        lemma_first_refused(label, mark, globs, j);
    }
}

/// Trimming takes away the white space that a text ends with, and nothing else.
pub proof fn law_trimming_takes_the_end(s: Seq<char>)
    ensures
        trimmed(s).len() <= s.len(),
        trimmed(s) == s.take(trimmed(s).len() as int),
        forall|i: int|
            trimmed(s).len() <= i < s.len() ==> text::is_white_space(#[trigger] s[i]),
        trimmed(s).len() > 0 ==> !text::is_white_space(trimmed(s).last()),
    decreases s.len(),
{
    if s.len() > 0 && text::is_white_space(s.last()) {
        law_trimming_takes_the_end(s.drop_last());
        assert(s.drop_last().take(trimmed(s).len() as int) =~= s.take(trimmed(s).len() as int));
        assert forall|i: int| trimmed(s).len() <= i < s.len() implies text::is_white_space(
            #[trigger] s[i],
        ) by {
            if i < s.len() - 1 {
                assert(s[i] == s.drop_last()[i]);
            }
        }
    } else {
        assert(s.take(s.len() as int) =~= s);
    }
}

/// A glob that is handed on to the letter: it is not empty, does not begin as a
/// comment and does not end with white space.
pub open spec fn is_plain(glob: Seq<char>) -> bool {
    glob.len() > 0 && glob[0] != '#' && !text::is_white_space(glob.last())
}

/// Plain globs are handed on in their order: first those to narrow the walk to, if
/// they narrow it, as they are, and then those to exclude, each behind an exclamation
/// mark.
pub proof fn law_globs_are_handed_on_in_order(cfg: Config)
    requires
        forall|i: int|
            0 <= i < cfg.scan.includes@.len() ==> is_plain(#[trigger] cfg.scan.includes@[i]@),
        forall|i: int|
            0 <= i < cfg.scan.exclude@.len() ==> is_plain(#[trigger] cfg.scan.exclude@[i]@),
    ensures
        ({
            let n: int = if cfg.scan.includes@.len() == 0 || (cfg.scan.includes@.len() == 1 && (
            cfg.scan.includes@[0]@ == "**/*"@ || cfg.scan.includes@[0]@ == "**"@)) {
                0
            } else {
                cfg.scan.includes@.len() as int
            };
            &&& lines(cfg).len() == n + cfg.scan.exclude@.len()
            &&& forall|i: int| 0 <= i < n ==> #[trigger] lines(cfg)[i] == cfg.scan.includes@[i]@
            &&& forall|i: int|
                n <= i < lines(cfg).len() ==> #[trigger] lines(cfg)[i] == "!"@
                    + cfg.scan.exclude@[i - n]@
        }),
{
    reveal_strlit("!");
    assert("!"@ =~= seq!['!']);
    let ins = config::texts(cfg.scan.includes@);
    let outs = config::texts(cfg.scan.exclude@);
    config::law_a_catch_all_stands_alone(ins);
    let white = whitelist(cfg);
    let first = with_lines(Seq::empty(), Seq::empty(), white);
    assert forall|i: int| 0 <= i < white.len() implies line_of(
        marked(Seq::empty(), #[trigger] white[i]),
    ) == Some(marked(Seq::empty(), white[i])) by {
        assert(white[i] == cfg.scan.includes@[i]@);
        assert(marked(Seq::empty(), white[i]) =~= white[i]);
    }
    lemma_plain_lines(Seq::empty(), Seq::empty(), white);
    assert forall|i: int| 0 <= i < outs.len() implies line_of(
        marked(seq!['!'], #[trigger] outs[i]),
    ) == Some(marked(seq!['!'], outs[i])) by {
        assert(outs[i] == cfg.scan.exclude@[i]@);
        let g = marked(seq!['!'], outs[i]);
        assert(g.last() == outs[i].last());
        assert(g[0] == '!');
    }
    lemma_plain_lines(first, seq!['!'], outs);
    assert forall|i: int| 0 <= i < white.len() implies #[trigger] lines(cfg)[i]
        == cfg.scan.includes@[i]@ by {
        assert(first[i] == marked(Seq::empty(), white[i]));
        assert(marked(Seq::empty(), white[i]) =~= white[i]);
    }
}

/// Globs that are lines themselves are added as they are.
proof fn lemma_plain_lines(was: Seq<Seq<char>>, mark: Seq<char>, globs: Seq<Seq<char>>)
    requires
        forall|i: int|
            0 <= i < globs.len() ==> line_of(marked(mark, #[trigger] globs[i])) == Some(
                marked(mark, globs[i]),
            ),
    ensures
        with_lines(was, mark, globs).len() == was.len() + globs.len(),
        forall|i: int| 0 <= i < was.len() ==> #[trigger] with_lines(was, mark, globs)[i] == was[i],
        forall|i: int|
            was.len() <= i < was.len() + globs.len() ==> #[trigger] with_lines(was, mark, globs)[i]
                == marked(mark, globs[i - was.len()]),
    decreases globs.len(),
{
    if globs.len() > 0 {
        let t = globs.drop_last();
        assert forall|i: int| 0 <= i < t.len() implies line_of(marked(mark, #[trigger] t[i]))
            == Some(marked(mark, t[i])) by {
            assert(t[i] == globs[i]);
        }
        lemma_plain_lines(was, mark, t);
        assert(globs.last() == globs[globs.len() - 1]);
    }
}

/// Whether a glob can be parsed is up to its text alone, unless a backslash stands
/// directly behind two stars somewhere in it.
pub proof fn law_a_backslash_behind_two_stars(glob: Seq<char>)
    ensures
        portable(glob) <==> forall|i: int|
            0 <= i <= glob.len() - 3 ==> #[trigger] glob.subrange(i, i + 3) != seq!['*', '*', '\\'],
{
    if portable(glob) {
        assert forall|i: int| 0 <= i <= glob.len() - 3 implies #[trigger] glob.subrange(i, i + 3)
            != seq!['*', '*', '\\'] by {
            let g = glob.subrange(i, i + 3);
            let s = seq!['*', '*', '\\'];
            assert(g[0] == glob[i] && g[1] == glob[i + 1] && g[2] == glob[i + 2]);
            assert(s[0] == '*' && s[1] == '*' && s[2] == '\\');
        }
    }
    if !portable(glob) {
        let i = choose|i: int|
            2 <= i < glob.len() && #[trigger] glob[i] == '\\' && glob[i - 1] == '*' && glob[i - 2]
                == '*';
        assert(glob.subrange(i - 2, i - 2 + 3) =~= seq!['*', '*', '\\']);
    }
}

/// A glob is refused for cause: its braces are nested too deeply, or it cannot be
/// parsed; the latter is known of a portable one.
pub open spec fn for_cause(glob: Seq<char>, e: Seq<char>) -> bool {
    ||| brace_depth(glob) > 250 && e == "braces are nested too deeply"@
    ||| brace_depth(glob) <= 250 && (portable(glob) ==> glob_problem(glob) == Some(e))
}

/// Nothing stands against a glob.
pub open spec fn is_fine(glob: Seq<char>) -> bool {
    brace_depth(glob) <= 250 && (portable(glob) ==> glob_problem(glob) is None)
}

/// What is said of a glob that is refused says whether it was to narrow the walk or
/// to exclude, which it is, and why; it is said of the first that is refused.
pub proof fn law_a_glob_is_refused_for_cause(cfg: Config, m: Seq<char>)
    requires
        glob_refused(cfg, m),
    ensures
        ({
            ||| exists|i: int, e: Seq<char>|
                {
                    let g = cfg.scan.includes@[i]@;
                    &&& 0 <= i < cfg.scan.includes@.len()
                    &&& #[trigger] for_cause(cfg.scan.includes@[i]@, e)
                    &&& m == "bad include glob "@ + text::quoted_text(g) + ": "@ + e
                    &&& forall|j: int| 0 <= j < i ==> is_fine(#[trigger] cfg.scan.includes@[j]@)
                }
            ||| exists|i: int, e: Seq<char>|
                {
                    let g = cfg.scan.exclude@[i]@;
                    &&& 0 <= i < cfg.scan.exclude@.len()
                    &&& #[trigger] for_cause("!"@ + cfg.scan.exclude@[i]@, e)
                    &&& m == "bad exclude glob "@ + text::quoted_text(g) + ": "@ + e
                    &&& forall|j: int|
                        0 <= j < i ==> is_fine("!"@ + #[trigger] cfg.scan.exclude@[j]@)
                }
        }),
{
    reveal_strlit("!");
    assert("!"@ =~= seq!['!']);
    let white = whitelist(cfg);
    let outs = config::texts(cfg.scan.exclude@);
    if refused("bad include glob "@, Seq::empty(), white, m) {
        let i = choose|i: int| #[trigger]
            refused_at("bad include glob "@, Seq::empty(), white, i, m);
        let e = choose|e: Seq<char>|
            faulted(Seq::empty(), white[i], e) && m == #[trigger] complaint(
                "bad include glob "@,
                white[i],
                e,
            );
        assert(white[i] == cfg.scan.includes@[i]@);
        assert(marked(Seq::empty(), white[i]) =~= white[i]);
        assert(for_cause(cfg.scan.includes@[i]@, e));
        assert forall|j: int| 0 <= j < i implies is_fine(#[trigger] cfg.scan.includes@[j]@) by {
            assert(white.take(i)[j] == cfg.scan.includes@[j]@);
            assert(taken(Seq::empty(), white.take(i)[j]));
            assert(marked(Seq::empty(), white[j]) =~= white[j]);
        }
    } else {
        let i = choose|i: int| #[trigger]
            refused_at("bad exclude glob "@, seq!['!'], outs, i, m);
        let e = choose|e: Seq<char>|
            faulted(seq!['!'], outs[i], e) && m == #[trigger] complaint(
                "bad exclude glob "@,
                outs[i],
                e,
            );
        assert(outs[i] == cfg.scan.exclude@[i]@);
        assert(for_cause("!"@ + cfg.scan.exclude@[i]@, e));
        assert forall|j: int| 0 <= j < i implies is_fine("!"@ + #[trigger] cfg.scan.exclude@[j]@) by {
            assert(outs.take(i)[j] == cfg.scan.exclude@[j]@);
            assert(taken(seq!['!'], outs.take(i)[j]));
        }
    }
}

/// The globs are taken exactly if nothing stands against any of them.
pub proof fn law_fine_globs_are_taken(cfg: Config)
    ensures
        globs_taken(cfg) <==> {
            &&& catch_all_is_set(cfg) || forall|i: int|
                0 <= i < cfg.scan.includes@.len() ==> is_fine(#[trigger] cfg.scan.includes@[i]@)
            &&& forall|i: int|
                0 <= i < cfg.scan.exclude@.len() ==> is_fine("!"@ + #[trigger] cfg.scan.exclude@[i]@)
        },
{
    reveal_strlit("!");
    assert("!"@ =~= seq!['!']);
    let ins = config::texts(cfg.scan.includes@);
    let outs = config::texts(cfg.scan.exclude@);
    config::law_a_catch_all_stands_alone(ins);
    let white = whitelist(cfg);
    assert forall|i: int| 0 <= i < ins.len() implies taken(Seq::empty(), #[trigger] ins[i])
        == is_fine(cfg.scan.includes@[i]@) by {
        assert(marked(Seq::empty(), ins[i]) =~= ins[i]);
    }
    assert forall|i: int| 0 <= i < outs.len() implies taken(seq!['!'], #[trigger] outs[i])
        == is_fine("!"@ + cfg.scan.exclude@[i]@) by {}
    assert(all_taken(Seq::empty(), ins) <==> forall|i: int|
        0 <= i < cfg.scan.includes@.len() ==> is_fine(#[trigger] cfg.scan.includes@[i]@)) by {
        if all_taken(Seq::empty(), ins) {
            assert forall|i: int| 0 <= i < cfg.scan.includes@.len() implies is_fine(
                #[trigger] cfg.scan.includes@[i]@,
            ) by {
                assert(taken(Seq::empty(), ins[i]));
            }
        }
    }
    assert(all_taken(seq!['!'], outs) <==> forall|i: int|
        0 <= i < cfg.scan.exclude@.len() ==> is_fine("!"@ + #[trigger] cfg.scan.exclude@[i]@)) by {
        if all_taken(seq!['!'], outs) {
            assert forall|i: int| 0 <= i < cfg.scan.exclude@.len() implies is_fine(
                "!"@ + #[trigger] cfg.scan.exclude@[i]@,
            ) by {
                assert(taken(seq!['!'], outs[i]));
            }
        }
    }
}

/// The walk is narrowed to nothing.
pub open spec fn catch_all_is_set(cfg: Config) -> bool {
    cfg.scan.includes@.len() == 0 || (cfg.scan.includes@.len() == 1 && (cfg.scan.includes@[0]@
        == "**/*"@ || cfg.scan.includes@[0]@ == "**"@))
}

/// Braces are never nested deeper than there are opening ones, so that a glob with
/// at most as many as the limit is not refused for them; and just as deep where
/// nothing closes them, or something may keep them from being closed.
pub proof fn law_braces_nest_no_deeper_than_they_open(glob: Seq<char>)
    ensures
        brace_depth(glob) <= glob.filter(|c: char| c == '{').len(),
        glob.filter(|c: char| c == '{').len() <= 250 ==> brace_depth(glob) <= BRACE_LIMIT,
        !glob.contains('}') || glob.contains('\\') || glob.contains('[') ==> brace_depth(glob)
            == glob.filter(|c: char| c == '{').len(),
{
    lemma_deepest(glob, unguarded(glob));
}

proof fn lemma_deepest(glob: Seq<char>, closing: bool)
    ensures
        open_braces(glob, closing) <= glob.filter(|c: char| c == '{').len(),
        deepest(glob, closing) <= glob.filter(|c: char| c == '{').len(),
        !closing || !glob.contains('}') ==> open_braces(glob, closing) == glob.filter(
            |c: char| c == '{',
        ).len() && deepest(glob, closing) == glob.filter(|c: char| c == '{').len(),
    decreases glob.len(),
{
    reveal(Seq::filter);
    if glob.len() > 0 {
        let t = glob.drop_last();
        lemma_deepest(t, closing);
        assert(glob[glob.len() - 1] == glob.last());
        if t.contains('}') {
            let i = choose|i: int| 0 <= i < t.len() && t[i] == '}';
            assert(glob[i] == '}');
        }
    }
}

/// What a glob adds: nothing if it is a comment or blank; else itself up to the white
/// space at its end, which counts only where it is a single escaped blank.
pub proof fn law_a_glob_adds_a_line(glob: Seq<char>)
    ensures
        glob.len() == 0 || glob[0] == '#' ==> line_of(glob) is None,
        text::is_blank(glob) ==> line_of(glob) is None,
        is_plain(glob) ==> line_of(glob) == Some(glob),
        line_of(glob) matches Some(line) ==> line.len() > 0 && line == glob.take(line.len() as int),
        glob.len() >= 2 && glob[0] != '#' && glob.last() == ' ' && glob[glob.len() - 2] == '\\'
            ==> line_of(glob) == Some(glob),
{
    law_trimming_takes_the_end(glob);
    assert(glob.take(glob.len() as int) =~= glob);
    if text::is_blank(glob) {
        if trimmed(glob).len() > 0 {
            assert(trimmed(glob).last() == glob[trimmed(glob).len() - 1]);
        }
        if glob.len() >= 2 {
            assert(text::is_white_space(glob[glob.len() - 2]));
        }
    }
}

/// One more glob to exclude adds its line at the end, and changes no other.
pub proof fn law_one_more_glob_is_one_more_line(cfg: Config, more: Config, glob: Seq<char>)
    requires
        more.scan.includes@ == cfg.scan.includes@,
        config::texts(more.scan.exclude@) == config::texts(cfg.scan.exclude@).push(glob),
    ensures
        match line_of("!"@ + glob) {
            Some(line) => lines(more) == lines(cfg).push(line),
            None => lines(more) == lines(cfg),
        },
{
    reveal_strlit("!");
    assert("!"@ =~= seq!['!']);
    let all = config::texts(more.scan.exclude@);
    assert(all.drop_last() =~= config::texts(cfg.scan.exclude@));
    assert(all.last() == glob);
}

/// A thousand globs of a hundred thousand characters together are not too many.
pub proof fn law_ordinary_globs_are_not_too_many(cfg: Config)
    requires
        cfg.scan.includes@.len() + cfg.scan.exclude@.len() <= 1000,
        length_of(config::texts(cfg.scan.includes@)) + length_of(config::texts(cfg.scan.exclude@))
            <= 100_000,
    ensures
        amount(cfg) <= MATCHER_LIMIT,
{
    let ins = config::texts(cfg.scan.includes@);
    let outs = config::texts(cfg.scan.exclude@);
    let white = whitelist(cfg);
    lemma_marked_sizes(Seq::empty(), white);
    lemma_marked_sizes(seq!['!'], outs);
    assert(length_of(Seq::<Seq<char>>::empty()) == 0);
    let n = white.len() + outs.len();
    let w = marked_sizes(Seq::empty(), white) + marked_sizes(seq!['!'], outs);
    assert(w <= 405_000);
    assert(n * w <= 1000 * 405_000) by (nonlinear_arith)
        requires
            n <= 1000,
            w <= 405_000,
    ;
}

/// How many characters some texts have together.
pub open spec fn length_of(texts: Seq<Seq<char>>) -> nat
    decreases texts.len(),
{
    if texts.len() == 0 {
        0
    } else {
        length_of(texts.drop_last()) + texts.last().len()
    }
}

proof fn lemma_size_bound(s: Seq<char>)
    ensures
        size(s) <= 1 + 4 * s.len(),
    decreases s.len(),
{
    if s.len() > 0 {
        lemma_size_bound(s.drop_last());
    }
}

proof fn lemma_marked_sizes(mark: Seq<char>, globs: Seq<Seq<char>>)
    requires
        mark.len() <= 1,
    ensures
        marked_sizes(mark, globs) <= 5 * globs.len() + 4 * length_of(globs),
    decreases globs.len(),
{
    let all = globs.map_values(|g: Seq<char>| marked(mark, g));
    if globs.len() > 0 {
        let t = globs.drop_last();
        lemma_marked_sizes(mark, t);
        assert(all.drop_last() =~= t.map_values(|g: Seq<char>| marked(mark, g)));
        assert(all.last() == marked(mark, globs.last()));
        lemma_size_bound(marked(mark, globs.last()));
    }
}

}
