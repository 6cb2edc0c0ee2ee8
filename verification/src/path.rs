//! Paths: a sequence of name components with an absolute/relative flag.

use vstd::prelude::*;
use vstd::string::*;

verus! {

broadcast use vstd::string::group_string_axioms;

/// The mathematical value of a [`Path`].
pub struct PathView {
    pub components: Seq<Seq<char>>,
    pub is_absolute: bool,
}

/// The separator between the components of a rendered path.
pub open spec fn separator() -> char {
    '/'
}

/// The texts of a sequence of strings.
pub open spec fn texts(names: Seq<String>) -> Seq<Seq<char>> {
    names.map_values(|s: String| s@)
}

/// The texts of a sequence of string slices.
pub open spec fn slice_texts(names: Seq<&str>) -> Seq<Seq<char>> {
    names.map_values(|s: &str| s@)
}

/// `s` cut at every occurrence of `sep`. The result is never empty: a text
/// without `sep` is its own single piece, and `n` occurrences give `n + 1`
/// pieces, some of which may be empty.
pub open spec fn split(s: Seq<char>, sep: char) -> Seq<Seq<char>>
    decreases s.len(),
{
    if s.len() == 0 {
        seq![Seq::<char>::empty()]
    } else {
        let init = split(s.drop_last(), sep);
        if s.last() == sep {
            init.push(Seq::<char>::empty())
        } else {
            init.drop_last().push(init.last().push(s.last()))
        }
    }
}

/// The pieces written one after another with `sep` between neighbours.
pub open spec fn join(parts: Seq<Seq<char>>, sep: char) -> Seq<char>
    decreases parts.len(),
{
    if parts.len() == 0 {
        Seq::<char>::empty()
    } else if parts.len() == 1 {
        parts[0]
    } else {
        join(parts.drop_last(), sep).push(sep) + parts.last()
    }
}

/// The pieces written one after another.
pub open spec fn concat(parts: Seq<Seq<char>>) -> Seq<char>
    decreases parts.len(),
{
    if parts.len() == 0 {
        Seq::<char>::empty()
    } else {
        concat(parts.drop_last()) + parts.last()
    }
}

/// `parts` with `sep` put between each two neighbours.
pub open spec fn interspersed(parts: Seq<Seq<char>>, sep: Seq<char>) -> Seq<Seq<char>> {
    Seq::new(
        if parts.len() == 0 { 0nat } else { (2 * parts.len() - 1) as nat },
        |i: int| if i % 2 == 0 { parts[i / 2] } else { sep },
    )
}

/// What a text means as a path. A leading separator makes the path absolute
/// and is not part of any component. The rest is cut at every separator; a
/// last piece that is empty (the text ended in a separator, or nothing was
/// left) is dropped. Empty pieces elsewhere stay.
pub open spec fn parse_spec(text: Seq<char>) -> PathView {
    let is_absolute = text.len() > 0 && text[0] == separator();
    let body = if is_absolute { text.skip(1) } else { text };
    let parts = split(body, separator());
    PathView {
        components: if parts.last().len() == 0 { parts.drop_last() } else { parts },
        is_absolute,
    }
}

/// The text of a path: the components joined by the separator, after a
/// leading separator where the path is absolute.
pub open spec fn render_spec(p: PathView) -> Seq<char> {
    if p.is_absolute {
        seq![separator()] + join(p.components, separator())
    } else {
        join(p.components, separator())
    }
}

/// The absolute path without components.
pub open spec fn root_spec() -> PathView {
    PathView { components: Seq::empty(), is_absolute: true }
}

/// The relative path without components.
pub open spec fn empty_spec() -> PathView {
    PathView { components: Seq::empty(), is_absolute: false }
}

/// `addition` taken from `base`: an absolute addition stands for itself, a
/// relative one continues `base`.
pub open spec fn compose_spec(base: PathView, addition: PathView) -> PathView {
    if addition.is_absolute {
        addition
    } else {
        PathView {
            components: base.components + addition.components,
            is_absolute: base.is_absolute,
        }
    }
}

/// A path whose components are all non-empty and free of the separator.
pub open spec fn well_formed(p: PathView) -> bool {
    forall|i: int|
        0 <= i < p.components.len() ==> {
            &&& (#[trigger] p.components[i]).len() > 0
            &&& !p.components[i].contains(separator())
        }
}

/// The texts of a sequence with one more string are the texts with one more.
pub proof fn lemma_texts_push(names: Seq<String>, name: String)
    ensures
        texts(names.push(name)) == texts(names).push(name@),
{
}

/// A split text has at least one piece, and its last piece is empty just
/// when the text is empty or ends in the separator.
pub proof fn lemma_split_nonempty(s: Seq<char>, sep: char)
    ensures
        split(s, sep).len() >= 1,
        split(s, sep).last().len() == 0 <==> (s.len() == 0 || s.last() == sep),
    decreases s.len(),
{
    if s.len() > 0 {
        lemma_split_nonempty(s.drop_last(), sep);
    }
}

/// Joining what was split gives the text back.
pub proof fn lemma_join_split(s: Seq<char>, sep: char)
    ensures
        join(split(s, sep), sep) == s,
    decreases s.len(),
{
    if s.len() > 0 {
        let init = split(s.drop_last(), sep);
        let parts = split(s, sep);
        lemma_split_nonempty(s.drop_last(), sep);
        lemma_join_split(s.drop_last(), sep);
        if s.last() == sep {
            assert(parts.drop_last() =~= init);
        } else if init.len() > 1 {
            assert(parts.drop_last() =~= init.drop_last());
            assert(s =~= s.drop_last().push(s.last()));
        }
    }
}

/// No piece of a split text holds the separator.
pub proof fn lemma_split_pieces_plain(s: Seq<char>, sep: char)
    ensures
        forall|i: int| 0 <= i < split(s, sep).len() ==> !(#[trigger] split(s, sep)[i]).contains(sep),
    decreases s.len(),
{
    let parts = split(s, sep);
    if s.len() > 0 {
        let init = split(s.drop_last(), sep);
        lemma_split_nonempty(s.drop_last(), sep);
        lemma_split_pieces_plain(s.drop_last(), sep);
        assert forall|i: int| 0 <= i < parts.len() implies !(#[trigger] parts[i]).contains(sep) by {
            if i == parts.len() - 1 && s.last() != sep {
                let piece = init.last().push(s.last());
                if piece.contains(sep) {
                    let k = choose|k: int| 0 <= k < piece.len() && piece[k] == sep;
                    assert(init.last()[k] == sep);
                }
            }
        }
    }
}

/// No component of a path read from a text holds the separator.
pub proof fn lemma_parsed_components(text: Seq<char>)
    ensures
        forall|i: int|
            0 <= i < parse_spec(text).components.len() ==> !(#[trigger] parse_spec(
                text,
            ).components[i]).contains(separator()),
{
    let is_absolute = text.len() > 0 && text[0] == separator();
    let body = if is_absolute { text.skip(1) } else { text };
    lemma_split_pieces_plain(body, separator());
    lemma_split_nonempty(body, separator());
}

/// Appending text without a separator only lengthens the last piece.
pub proof fn lemma_split_append_plain(a: Seq<char>, b: Seq<char>, sep: char)
    requires
        !b.contains(sep),
    ensures
        split(a + b, sep) == split(a, sep).drop_last().push(split(a, sep).last() + b),
    decreases b.len(),
{
    lemma_split_nonempty(a, sep);
    if b.len() > 0 {
        let b0 = b.drop_last();
        assert forall|c: char| b0.contains(c) implies b.contains(c) by {
            let i = choose|i: int| 0 <= i < b0.len() && b0[i] == c;
        }
        lemma_split_append_plain(a, b0, sep);
        assert((a + b).drop_last() =~= a + b0);
        let init = split(a + b0, sep);
        assert(init.last().push(b.last()) =~= split(a, sep).last() + b);
    }
}

/// Splitting what was joined gives the pieces back, where no piece holds the
/// separator and there is at least one piece.
pub proof fn lemma_split_join(parts: Seq<Seq<char>>, sep: char)
    requires
        parts.len() >= 1,
        forall|i: int| 0 <= i < parts.len() ==> !(#[trigger] parts[i]).contains(sep),
    ensures
        split(join(parts, sep), sep) == parts,
    decreases parts.len(),
{
    let empty = Seq::<char>::empty();
    if parts.len() == 1 {
        lemma_split_append_plain(empty, parts[0], sep);
    } else {
        let init = parts.drop_last();
        lemma_split_join(init, sep);
        let head = join(init, sep).push(sep);
        assert(head.drop_last() =~= join(init, sep));
        lemma_split_append_plain(head, parts.last(), sep);
    }
}

/// Writing the interspersed pieces one after another is joining.
pub proof fn lemma_concat_interspersed(parts: Seq<Seq<char>>, sep: char)
    ensures
        concat(interspersed(parts, seq![sep])) == join(parts, sep),
    decreases parts.len(),
{
    let all = interspersed(parts, seq![sep]);
    if parts.len() == 1 {
        assert(concat(all.drop_last()) =~= Seq::<char>::empty());
    } else if parts.len() > 1 {
        let init = parts.drop_last();
        lemma_concat_interspersed(init, sep);
        assert(all.drop_last().drop_last() =~= interspersed(init, seq![sep]));
        assert(concat(all.drop_last()) == concat(all.drop_last().drop_last()) + seq![sep]);
    }
}

/// The part of a text behind its leading separator, or all of it where it
/// has none.
pub open spec fn body_of(text: Seq<char>) -> Seq<char> {
    if text.len() > 0 && text[0] == separator() {
        text.skip(1)
    } else {
        text
    }
}

/// Reading a text and rendering what was read gives the text back, less a
/// final separator where the text has one behind its leading separator: the
/// reader drops the empty piece behind it.
pub proof fn lemma_render_parse(text: Seq<char>)
    ensures
        render_spec(parse_spec(text)) == if body_of(text).len() > 0 && text.last()
            == separator() {
            text.drop_last()
        } else {
            text
        },
{
    let sep = separator();
    let body = body_of(text);
    let parts = split(body, sep);
    lemma_split_nonempty(body, sep);
    lemma_join_split(body, sep);
    if body.len() == 0 {
        assert(parts.drop_last() =~= Seq::<Seq<char>>::empty());
        assert(render_spec(parse_spec(text)) =~= text);
    } else if body.last() == sep {
        assert(parts.drop_last() == split(body.drop_last(), sep));
        lemma_join_split(body.drop_last(), sep);
        assert(render_spec(parse_spec(text)) =~= text.drop_last());
    } else {
        assert(render_spec(parse_spec(text)) =~= text);
    }
}

/// Reading a rendered text gives a path that renders to the same text,
/// unless the text ends in a separator that is not its only character.
pub proof fn lemma_render_parse_render(p: PathView)
    requires
        p.is_absolute,
        render_spec(p).len() == 1 || render_spec(p).last() != separator(),
    ensures
        render_spec(parse_spec(render_spec(p))) == render_spec(p),
{
    let text = render_spec(p);
    assert(body_of(text) =~= join(p.components, separator()));
    lemma_render_parse(text);
}

/// Reading the text of a well-formed path gives the path back.
pub proof fn lemma_parse_render(p: PathView)
    requires
        well_formed(p),
    ensures
        parse_spec(render_spec(p)) == p,
{
    let sep = separator();
    let body = join(p.components, sep);
    let text = render_spec(p);
    if p.components.len() == 0 {
        assert(split(Seq::<char>::empty(), sep).drop_last() =~= p.components);
    } else {
        assert forall|i: int| 0 <= i < p.components.len() implies !(#[trigger] p.components[i]).contains(sep) by {}
        lemma_split_join(p.components, sep);
        lemma_split_nonempty(body, sep);
        lemma_join_starts(p.components, sep);
        assert(body[0] == p.components[0][0]);
        if p.is_absolute {
            assert(text.skip(1) =~= body);
        }
    }
}

/// A joined text starts with its first piece.
pub proof fn lemma_join_starts(parts: Seq<Seq<char>>, sep: char)
    requires
        parts.len() >= 1,
    ensures
        parts[0].is_prefix_of(join(parts, sep)),
    decreases parts.len(),
{
    if parts.len() > 1 {
        lemma_join_starts(parts.drop_last(), sep);
    }
}

/// An absolute addition without components resets any base to the root.
pub proof fn lemma_compose_root(base: PathView)
    ensures
        compose_spec(base, root_spec()) == root_spec(),
{
}

/// An absolute addition replaces the base.
pub proof fn lemma_compose_absolute(base: PathView, addition: PathView)
    requires
        addition.is_absolute,
    ensures
        compose_spec(base, addition) == addition,
{
}

/// A relative addition continues the base: the result has the base's flag,
/// and the base's components followed by the addition's.
pub proof fn lemma_compose_relative(base: PathView, addition: PathView)
    requires
        !addition.is_absolute,
    ensures
        compose_spec(base, addition).is_absolute == base.is_absolute,
        compose_spec(base, addition).components == base.components + addition.components,
        compose_spec(base, addition).components.len() == base.components.len()
            + addition.components.len(),
        forall|i: int|
            0 <= i < base.components.len() ==> compose_spec(base, addition).components[i]
                == base.components[i],
        forall|i: int|
            0 <= i < addition.components.len() ==> compose_spec(
                base,
                addition,
            ).components[base.components.len() + i] == addition.components[i],
{
}

/// Taking additions one after another is taking their composition.
pub proof fn lemma_compose_associative(a: PathView, b: PathView, c: PathView)
    ensures
        compose_spec(compose_spec(a, b), c) == compose_spec(a, compose_spec(b, c)),
{
    if !c.is_absolute && !b.is_absolute {
        assert((a.components + b.components) + c.components =~= a.components + (b.components
            + c.components));
    }
}

/// The relative path without components changes nothing, taken from a base
/// or used as one.
pub proof fn lemma_compose_empty(p: PathView)
    ensures
        compose_spec(p, empty_spec()) == p,
        compose_spec(empty_spec(), p) == p,
{
}

/// Calls `itertools::Itertools::intersperse` on the pieces, with `sep` as the
/// element to insert, and collects what the adaptor yields. Trusted: the
/// adaptor yields the pieces in their order with one `sep` between each two
/// neighbours, and nothing before the first or after the last.
#[verifier::external_body]
fn intersperse<'a>(parts: &'a Vec<String>, sep: &'a str) -> (out: Vec<&'a str>)
    ensures
        slice_texts(out@) == interspersed(texts(parts@), sep@),
{
    itertools::Itertools::intersperse(parts.iter().map(String::as_str), sep).collect()
}

/// Calls `String::push`. Trusted: the character is appended to the text.
#[verifier::external_body]
fn push_char(s: &mut String, c: char)
    ensures
        final(s)@ == old(s)@.push(c),
{
    s.push(c)
}

/// A sequence of name components, taken from the root of the tree when the
/// path is absolute and from the current directory when it is relative.
#[derive(Debug)]
pub struct Path {
    components: Vec<String>,
    is_absolute: bool,
}

impl View for Path {
    type V = PathView;

    closed spec fn view(&self) -> PathView {
        PathView { components: texts(self.components@), is_absolute: self.is_absolute }
    }
}

impl Clone for Path {
    fn clone(&self) -> (copy: Self)
        ensures
            copy@ == self@,
    {
        let mut components: Vec<String> = Vec::new();
        let mut i: usize = 0;
        while i < self.components.len()
            invariant
                i <= self.components.len(),
                texts(components@) == texts(self.components@).take(i as int),
            decreases self.components.len() - i,
        {
            let ghost before = components@;
            components.push(self.components[i].clone());
            proof {
                lemma_texts_push(before, self.components[i as int]);
            }
            i += 1;
        }
        proof {
            assert(texts(self.components@).take(i as int) =~= texts(self.components@));
        }
        Path { components, is_absolute: self.is_absolute }
    }
}

impl Path {
    /// The absolute path without components.
    pub fn root() -> (p: Self)
        ensures
            p@ == root_spec(),
    {
        let p = Path { components: Vec::new(), is_absolute: true };
        proof {
            assert(p@.components =~= Seq::<Seq<char>>::empty());
        }
        p
    }

    /// Reads a path from its text, as [`parse_spec`] says.
    pub fn parse(text: &str) -> (p: Self)
        ensures
            p@ == parse_spec(text@),
    {
        let mut components: Vec<String> = Vec::new();
        let mut current = String::new();
        let mut is_absolute = false;
        let mut first = true;
        let ghost mut from: int = 0;
        proof {
            assert(texts(components@).push(current@) =~= split(
                text@.subrange(0, 0),
                separator(),
            ));
        }
        for c in it: text.chars()
            invariant
                it.seq() == text@,
                first <==> it.index() == 0,
                0 <= from <= it.index(),
                from <= 1,
                from == 1 <==> is_absolute,
                is_absolute <==> (it.index() > 0 && text@[0] == separator()),
                texts(components@).push(current@) == split(
                    text@.subrange(from, it.index() as int),
                    separator(),
                ),
        {
            let ghost i = it.index() as int;
            let ghost before = text@.subrange(from, i);
            if first && c == '/' {
                is_absolute = true;
                proof {
                    from = 1;
                }
            } else if c == '/' {
                let ghost names = components@;
                components.push(current);
                current = String::new();
                proof {
                    lemma_texts_push(names, components@.last());
                    let after = text@.subrange(from, i + 1);
                    assert(after.drop_last() =~= before);
                }
            } else {
                push_char(&mut current, c);
                proof {
                    let after = text@.subrange(from, i + 1);
                    assert(after.drop_last() =~= before);
                }
            }
            first = false;
        }
        proof {
            let body = if is_absolute { text@.skip(1) } else { text@ };
            assert(text@.subrange(from, text@.len() as int) =~= body);
            assert(texts(components@).push(current@).drop_last() =~= texts(components@));
        }
        if !current.as_str().is_empty() {
            let ghost names = components@;
            components.push(current);
            proof {
                lemma_texts_push(names, components@.last());
            }
        }
        Path { components, is_absolute }
    }

    /// The path with one more component at its end.
    pub fn with_component(self, component: String) -> (p: Self)
        ensures
            p@.components == self@.components.push(component@),
            p@.is_absolute == self@.is_absolute,
    {
        let mut p = self;
        p.components.push(component);
        proof {
            lemma_texts_push(self.components@, component);
        }
        p
    }

    /// Whether the path is taken from the root of the tree.
    pub fn is_absolute(&self) -> (b: bool)
        ensures
            b == self@.is_absolute,
    {
        self.is_absolute
    }

    /// Whether the path is taken from the current directory.
    pub fn is_relative(&self) -> (b: bool)
        ensures
            b == !self@.is_absolute,
    {
        !self.is_absolute
    }

    /// The components, first to last.
    pub fn components(&self) -> (names: &Vec<String>)
        ensures
            texts(names@) == self@.components,
    {
        &self.components
    }

    /// `addition` taken from `self`, as [`compose_spec`] says.
    pub fn compose(self, addition: Path) -> (p: Path)
        ensures
            p@ == compose_spec(self@, addition@),
    {
        let mut p = self;
        p.continue_with(addition);
        p
    }

    /// Replaces `self` by `addition` taken from it.
    fn continue_with(&mut self, addition: Path)
        ensures
            final(self)@ == compose_spec(old(self)@, addition@),
    {
        if addition.is_absolute {
            *self = addition;
        } else {
            let mut i: usize = 0;
            while i < addition.components.len()
                invariant
                    i <= addition.components.len(),
                    self.is_absolute == old(self).is_absolute,
                    texts(self.components@) == texts(old(self).components@) + texts(
                        addition.components@,
                    ).take(i as int),
                decreases addition.components.len() - i,
            {
                let ghost before = self.components@;
                self.components.push(addition.components[i].clone());
                proof {
                    lemma_texts_push(before, addition.components[i as int]);
                    assert(texts(self.components@) =~= texts(old(self).components@) + texts(
                        addition.components@,
                    ).take(i + 1));
                }
                i += 1;
            }
            proof {
                assert(texts(addition.components@).take(i as int) =~= texts(
                    addition.components@,
                ));
            }
        }
    }

    /// The text of the path, as [`render_spec`] says.
    pub fn render(&self) -> (text: String)
        ensures
            text@ == render_spec(self@),
    {
        let pieces = intersperse(&self.components, "/");
        let mut text = if self.is_absolute {
            String::from_str("/")
        } else {
            String::new()
        };
        let ghost prefix = text@;
        let ghost all = slice_texts(pieces@);
        proof {
            reveal_strlit("/");
            assert("/"@ =~= seq![separator()]);
            lemma_concat_interspersed(self@.components, separator());
        }
        let mut i: usize = 0;
        while i < pieces.len()
            invariant
                i <= pieces.len(),
                all == slice_texts(pieces@),
                text@ == prefix + concat(all.take(i as int)),
            decreases pieces.len() - i,
        {
            text.append(pieces[i]);
            proof {
                assert(all.take(i + 1).drop_last() =~= all.take(i as int));
            }
            i += 1;
        }
        proof {
            assert(all.take(i as int) =~= all);
        }
        text
    }
}

impl core::ops::Add<Path> for Path {
    type Output = Path;

    /// `rhs` taken from `self`: the operator form of [`Path::compose`].
    fn add(self, rhs: Path) -> (sum: Path)
        ensures
            sum@ == compose_spec(self@, rhs@),
    {
        self.compose(rhs)
    }
}

impl vstd::std_specs::ops::AddSpecImpl<Path> for Path {
    open spec fn obeys_add_spec() -> bool {
        false
    }

    open spec fn add_req(self, rhs: Path) -> bool {
        true
    }

    open spec fn add_spec(self, rhs: Path) -> Path {
        arbitrary()
    }
}

impl core::ops::AddAssign<Path> for Path {
    /// Replaces `self` by `rhs` taken from it.
    fn add_assign(&mut self, rhs: Path)
        ensures
            final(self)@ == compose_spec(old(self)@, rhs@),
    {
        self.continue_with(rhs)
    }
}

impl std::string::ToString for Path {
    /// The text of the path: the trait form of [`Path::render`].
    fn to_string(&self) -> (text: String)
        ensures
            text@ == render_spec(self@),
    {
        self.render()
    }
}

} // verus!
