//! Shape codes and the dotted field paths they compile to.

use vstd::prelude::*;

verus! {

/// One level of an expected nesting shape.
#[derive(Debug, Clone, Copy, PartialEq, Eq, Structural)]
pub enum Blk {
    Statement,
    Resource,
    Property,
    If,
    Case,
    Unknown,
}

impl Blk {
    /// The kind that a letter of a shape code stands for, if any.
    pub open spec fn of_letter(c: char) -> Option<Blk> {
        if c == 'S' {
            Some(Blk::Statement)
        } else if c == 'R' {
            Some(Blk::Resource)
        } else if c == 'P' {
            Some(Blk::Property)
        } else if c == 'I' {
            Some(Blk::If)
        } else if c == 'C' {
            Some(Blk::Case)
        } else if c == 'U' {
            Some(Blk::Unknown)
        } else {
            None
        }
    }

    /// Whether blocks of this kind hold child blocks.
    pub open spec fn is_container(self) -> bool {
        self is Statement || self is Resource || self is If || self is Case
    }

    /// The name under which a container of this kind appears in a path;
    /// empty for the kinds that hold no children.
    pub open spec fn label(self) -> Seq<char> {
        match self {
            Blk::Statement => "Statement"@,
            Blk::Resource => "Resource"@,
            Blk::If => "If"@,
            Blk::Case => "Case"@,
            Blk::Property | Blk::Unknown => Seq::empty(),
        }
    }

    /// The path segment that one level of this kind contributes: the label,
    /// the field that holds the children, and a separator after each.
    pub open spec fn segment(self) -> Seq<char> {
        match self {
            Blk::Statement => "Statement.contents."@,
            Blk::Resource => "Resource.contents."@,
            Blk::If => "If.blocks."@,
            Blk::Case => "Case.blocks."@,
            Blk::Property | Blk::Unknown => Seq::empty(),
        }
    }

    /// The field under which a container of this kind holds its children;
    /// empty for the kinds that hold none.
    pub open spec fn child_field(self) -> Seq<char> {
        match self {
            Blk::Statement | Blk::Resource => "contents"@,
            Blk::If | Blk::Case => "blocks"@,
            Blk::Property | Blk::Unknown => Seq::empty(),
        }
    }

    /// Reads one letter of a shape code.
    pub fn from_letter(c: char) -> (kind: Option<Blk>)
        ensures
            kind == Blk::of_letter(c),
    {
        if c == 'S' {
            Some(Blk::Statement)
        } else if c == 'R' {
            Some(Blk::Resource)
        } else if c == 'P' {
            Some(Blk::Property)
        } else if c == 'I' {
            Some(Blk::If)
        } else if c == 'C' {
            Some(Blk::Case)
        } else if c == 'U' {
            Some(Blk::Unknown)
        } else {
            None
        }
    }

    /// Whether blocks of this kind hold child blocks.
    pub fn holds_children(self) -> (held: bool)
        ensures
            held == self.is_container(),
    {
        match self {
            Blk::Statement | Blk::Resource | Blk::If | Blk::Case => true,
            Blk::Property | Blk::Unknown => false,
        }
    }

    /// The text of `segment`.
    pub fn segment_str(self) -> (text: &'static str)
        ensures
            text@ == self.segment(),
    {
        match self {
            Blk::Statement => "Statement.contents.",
            Blk::Resource => "Resource.contents.",
            Blk::If => "If.blocks.",
            Blk::Case => "Case.blocks.",
            Blk::Property | Blk::Unknown => {
                proof {
                    reveal_strlit("");
                }
                assert(""@ =~= Seq::<char>::empty());
                ""
            },
        }
    }
}

/// The kinds named by the letters of `code`, in order; other characters
/// name nothing and are passed over.
pub open spec fn parse_code(code: Seq<char>) -> Seq<Blk>
    decreases code.len(),
{
    if code.len() == 0 {
        Seq::empty()
    } else {
        match Blk::of_letter(code.last()) {
            Some(kind) => parse_code(code.drop_last()).push(kind),
            None => parse_code(code.drop_last()),
        }
    }
}

/// The segments of all `tokens`, one after the other.
pub open spec fn concat_segments(tokens: Seq<Blk>) -> Seq<char>
    decreases tokens.len(),
{
    if tokens.len() == 0 {
        Seq::empty()
    } else {
        concat_segments(tokens.drop_last()) + tokens.last().segment()
    }
}

/// The index of the last `'.'` in `text`, or `-1` where it has none.
pub open spec fn last_dot(text: Seq<char>) -> int
    decreases text.len(),
{
    if text.len() == 0 {
        -1
    } else if text.last() == '.' {
        text.len() - 1
    } else {
        last_dot(text.drop_last())
    }
}

/// `text` without its final character and without what then follows the
/// last `'.'`, that `'.'` included.
pub open spec fn strip_last_label(text: Seq<char>) -> Seq<char> {
    if text.len() == 0 {
        text
    } else {
        let body = text.drop_last();
        if last_dot(body) < 0 {
            body
        } else {
            body.take(last_dot(body))
        }
    }
}

/// The path that a sequence of kinds compiles to.
pub open spec fn compiled_path(tokens: Seq<Blk>) -> Seq<char> {
    strip_last_label(concat_segments(tokens))
}

/// The index of the last container kind in `tokens`, or `-1` where it
/// has none.
pub open spec fn last_container(tokens: Seq<Blk>) -> int
    decreases tokens.len(),
{
    if tokens.len() == 0 {
        -1
    } else if tokens.last().is_container() {
        tokens.len() - 1
    } else {
        last_container(tokens.drop_last())
    }
}

/// Whether the last level of `tokens` is a conditional or multi-branch
/// container, which no path can address.
pub open spec fn ends_in_branch(tokens: Seq<Blk>) -> bool {
    tokens.len() > 0 && (tokens.last() is If || tokens.last() is Case)
}

/// A container's segment is its label, a separator, the field of its
/// children and a separator, and neither name holds a separator.
pub proof fn lemma_segment_parts(kind: Blk)
    requires
        kind.is_container(),
    ensures
        kind.segment() == kind.label() + seq!['.'] + kind.child_field() + seq!['.'],
        kind.label().len() > 0,
        forall|i: int| 0 <= i < kind.label().len() ==> kind.label()[i] != '.',
        forall|i: int| 0 <= i < kind.child_field().len() ==> kind.child_field()[i] != '.',
{
    reveal_strlit("Statement.contents.");
    reveal_strlit("Resource.contents.");
    reveal_strlit("If.blocks.");
    reveal_strlit("Case.blocks.");
    reveal_strlit("Statement");
    reveal_strlit("Resource");
    reveal_strlit("If");
    reveal_strlit("Case");
    reveal_strlit("contents");
    reveal_strlit("blocks");
    assert(kind.segment() =~= kind.label() + seq!['.'] + kind.child_field() + seq!['.']);
}

/// Text without a separator, put behind text that ends in one, leaves the
/// last separator where it was.
proof fn lemma_last_dot_before_tail(head: Seq<char>, tail: Seq<char>)
    requires
        head.len() > 0,
        head.last() == '.',
        forall|i: int| 0 <= i < tail.len() ==> tail[i] != '.',
    ensures
        last_dot(head + tail) == head.len() - 1,
    decreases tail.len(),
{
    if tail.len() == 0 {
        assert(head + tail =~= head);
    } else {
        assert((head + tail).drop_last() =~= head + tail.drop_last());
        assert((head + tail).last() == tail[tail.len() - 1]);
        lemma_last_dot_before_tail(head, tail.drop_last());
    }
}

/// Levels behind the last container add nothing to the segments.
proof fn lemma_segments_end_at_last_container(tokens: Seq<Blk>)
    ensures
        -1 <= last_container(tokens) < tokens.len(),
        last_container(tokens) >= 0 ==> tokens[last_container(tokens)].is_container(),
        concat_segments(tokens) == concat_segments(tokens.take(last_container(tokens) + 1)),
    decreases tokens.len(),
{
    if tokens.len() == 0 {
        assert(tokens.take(0) =~= tokens);
    } else if tokens.last().is_container() {
        assert(tokens.take(tokens.len() as int) =~= tokens);
    } else {
        let init = tokens.drop_last();
        lemma_segments_end_at_last_container(init);
        let k = last_container(init);
        assert(init.take(k + 1) =~= tokens.take(k + 1));
        assert(concat_segments(tokens) =~= concat_segments(init));
    }
}

/// What a shape compiles to, said directly: the segments of the levels
/// above the last container, then that container's label; nothing at all
/// where the shape names no container.
pub proof fn lemma_compiled_path(tokens: Seq<Blk>)
    ensures
        last_container(tokens) < 0 ==> compiled_path(tokens) == Seq::<char>::empty(),
        last_container(tokens) >= 0 ==> compiled_path(tokens) == concat_segments(
            tokens.take(last_container(tokens)),
        ) + tokens[last_container(tokens)].label(),
{
    lemma_segments_end_at_last_container(tokens);
    let k = last_container(tokens);
    if k < 0 {
        assert(tokens.take(0).len() == 0);
    } else {
        let kind = tokens[k];
        let above = concat_segments(tokens.take(k));
        lemma_segment_parts(kind);
        assert(tokens.take(k + 1).drop_last() =~= tokens.take(k));
        assert(tokens.take(k + 1).last() == kind);
        let text = above + kind.segment();
        assert(concat_segments(tokens) == text);
        let head = above + kind.label() + seq!['.'];
        assert(text.drop_last() =~= head + kind.child_field());
        lemma_last_dot_before_tail(head, kind.child_field());
        assert((head + kind.child_field()).take(head.len() - 1) =~= above + kind.label());
    }
}

/// A non-empty shape made of containers only compiles to the segments of
/// all its levels but the last, followed by the label of the last.
pub proof fn lemma_container_path(tokens: Seq<Blk>)
    requires
        tokens.len() > 0,
        forall|i: int| 0 <= i < tokens.len() ==> tokens[i].is_container(),
    ensures
        compiled_path(tokens) == concat_segments(tokens.drop_last()) + tokens.last().label(),
{
    lemma_compiled_path(tokens);
    assert(tokens.take(tokens.len() - 1) =~= tokens.drop_last());
}

/// A shape names a container exactly when its path is not empty.
pub proof fn lemma_empty_path(tokens: Seq<Blk>)
    ensures
        compiled_path(tokens).len() == 0 <==> last_container(tokens) < 0,
{
    lemma_compiled_path(tokens);
    lemma_segments_end_at_last_container(tokens);
    if last_container(tokens) >= 0 {
        lemma_segment_parts(tokens[last_container(tokens)]);
    }
}

/// Why a shape has no usable path.
#[derive(Debug, Clone, Copy, PartialEq, Eq, Structural)]
pub enum ShapeError {
    /// The shape names no container, so its path would be empty.
    NoContainer,
    /// The last level is a conditional or multi-branch container.
    TrailingBranch,
}

/// The path of a shape that has a usable one, and why the others have
/// none: a shape must name a container, and must not end in a conditional
/// or multi-branch level.
pub open spec fn checked_path(tokens: Seq<Blk>) -> Result<Seq<char>, ShapeError> {
    if ends_in_branch(tokens) {
        Err(ShapeError::TrailingBranch)
    } else if last_container(tokens) < 0 {
        Err(ShapeError::NoContainer)
    } else {
        Ok(compiled_path(tokens))
    }
}

/// A compiled shape code: the expected nesting, shallowest level first.
#[derive(Debug, Clone, PartialEq, Eq)]
pub struct CodeStructure {
    structure: Vec<Blk>,
}

impl View for CodeStructure {
    type V = Seq<Blk>;

    closed spec fn view(&self) -> Seq<Blk> {
        self.structure@
    }
}

impl CodeStructure {
    /// Reads a shape code, one letter per level.
    pub fn new(code: &str) -> (shape: Self)
        ensures
            shape@ == parse_code(code@),
    {
        let mut strct: Vec<Blk> = Vec::new();
        for c in it: code.chars()
            invariant
                it.seq() == code@,
                strct@ == parse_code(code@.take(it.index())),
        {
            proof {
                assert(code@.take(it.index() + 1).drop_last() =~= code@.take(it.index()));
            }
            match Blk::from_letter(c) {
                Some(kind) => strct.push(kind),
                None => {},
            }
        }
        proof {
            assert(code@.take(code@.len() as int) =~= code@);
        }
        CodeStructure { structure: strct }
    }

    /// The levels of the shape, shallowest first.
    pub fn tokens(&self) -> (tokens: &Vec<Blk>)
        ensures
            tokens@ == self@,
    {
        &self.structure
    }

    /// The dotted path that addresses the innermost container of the shape.
    pub fn get_match_string(&self) -> (path: String)
        ensures
            path@ == compiled_path(self@),
    {
        let mut match_string = String::new();
        let n = self.structure.len();
        let mut i: usize = 0;
        while i < n
            invariant
                n == self.structure@.len(),
                i <= n,
                match_string@ == concat_segments(self.structure@.take(i as int)),
            decreases n - i,
        {
            proof {
                assert(self.structure@.take(i + 1).drop_last() =~= self.structure@.take(i as int));
            }
            match_string.append(self.structure[i].segment_str());
            i += 1;
        }
        proof {
            assert(self.structure@.take(n as int) =~= self.structure@);
        }
        strip_label(match_string.as_str())
    }

    /// The path of `get_match_string`, for the shapes that have a usable
    /// one; for the others, the reason why they have none.
    pub fn compile(&self) -> (compiled: Result<String, ShapeError>)
        ensures
            match compiled {
                Ok(path) => checked_path(self@) == Ok::<Seq<char>, ShapeError>(path@) && path@.len()
                    > 0,
                Err(error) => checked_path(self@) == Err::<Seq<char>, ShapeError>(error),
            },
    {
        let n = self.structure.len();
        if n > 0 && (matches!(self.structure[n - 1], Blk::If) || matches!(
            self.structure[n - 1],
            Blk::Case
        )) {
            return Err(ShapeError::TrailingBranch);
        }
        let mut i: usize = n;
        proof {
            assert(self.structure@.take(n as int) =~= self.structure@);
        }
        while i > 0 && !self.structure[i - 1].holds_children()
            invariant
                n == self.structure@.len(),
                i <= n,
                last_container(self.structure@) == last_container(self.structure@.take(i as int)),
            decreases i,
        {
            proof {
                assert(self.structure@.take(i as int).drop_last() =~= self.structure@.take(i - 1));
            }
            i -= 1;
        }
        if i == 0 {
            return Err(ShapeError::NoContainer);
        }
        proof {
            lemma_empty_path(self@);
        }
        Ok(self.get_match_string())
    }
}

/// Removes the final character of `text` and the last dotted label before it.
fn strip_label(text: &str) -> (stripped: String)
    ensures
        stripped@ == strip_last_label(text@),
{
    let n = text.unicode_len();
    if n == 0 {
        return String::new();
    }
    let m: usize = n - 1;
    let mut d: usize = m;
    while d > 0 && text.get_char(d - 1) != '.'
        invariant
            n == text@.len(),
            m == n - 1,
            d <= m,
            last_dot(text@.take(m as int)) == last_dot(text@.take(d as int)),
        decreases d,
    {
        proof {
            assert(text@.take(d as int).drop_last() =~= text@.take(d - 1));
        }
        d -= 1;
    }
    proof {
        assert(text@.take(m as int) =~= text@.drop_last());
    }
    if d == 0 {
        text.substring_char(0, m).to_owned()
    } else {
        proof {
            assert(text@.take(m as int).take(d - 1) =~= text@.subrange(0, d - 1));
        }
        text.substring_char(0, d - 1).to_owned()
    }
}

} // verus!
