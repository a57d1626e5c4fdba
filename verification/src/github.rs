//! The annotation commands of the CI platform: their severities, their order and their
//! encoding on the wire.

use crate::order::{
    lemma_number_order, lemma_option_order, lemma_text_order, number_order, option_lt,
    option_order, precedence, text_lt, text_order, Precedence,
};
use crate::order::lex_order;
use crate::path::{
    compare_paths, compare_texts, lemma_parts_order, lemma_path_order, part_order, parts, path_lt,
};
use crate::text::{
    chars_of, decimal, decimal_string, lemma_replaced_absent, lemma_replaced_concat,
    lemma_replaced_one, replace, replaced, trim, trimmed,
};
use std::cmp::Ordering;
use vstd::prelude::*;
use vstd::relations::*;
use vstd::std_specs::cmp::PartialOrdSpecImpl;

verus! {

/// Severity of an annotation, from the least to the most severe.
#[derive(Debug, Clone, Copy, PartialEq, Eq, Ord, Hash, Structural)]
pub enum AnnotationKind {
    Notice,
    Warning,
    Error,
}

impl AnnotationKind {
    /// Place of the severity in the order: the more severe, the higher.
    pub open spec fn rank(self) -> nat {
        match self {
            AnnotationKind::Notice => 0,
            AnnotationKind::Warning => 1,
            AnnotationKind::Error => 2,
        }
    }

    /// The emoji shown for the severity.
    pub open spec fn emoji_text(self) -> Seq<char> {
        match self {
            AnnotationKind::Notice => "\u{2139}\u{fe0f}"@,
            AnnotationKind::Warning => "\u{26a0}\u{fe0f}"@,
            AnnotationKind::Error => "\u{274c}"@,
        }
    }

    /// The name of the severity.
    pub open spec fn name_text(self) -> Seq<char> {
        match self {
            AnnotationKind::Notice => "Notice"@,
            AnnotationKind::Warning => "Warning"@,
            AnnotationKind::Error => "Error"@,
        }
    }

    /// The name of the severity in lower case: the word that opens a command on the wire.
    pub open spec fn token_text(self) -> Seq<char> {
        match self {
            AnnotationKind::Notice => "notice"@,
            AnnotationKind::Warning => "warning"@,
            AnnotationKind::Error => "error"@,
        }
    }

    /// The severity as a summary shows it: the emoji, a space, the name.
    pub open spec fn label_text(self) -> Seq<char> {
        self.emoji_text() + " "@ + self.name_text()
    }

    /// Returns the emoji associated with the annotation kind.
    pub fn emoji(&self) -> (r: &'static str)
        ensures
            r@ == self.emoji_text(),
    {
        match self {
            AnnotationKind::Notice => "\u{2139}\u{fe0f}",
            AnnotationKind::Warning => "\u{26a0}\u{fe0f}",
            AnnotationKind::Error => "\u{274c}",
        }
    }

    /// Returns the name of the annotation kind.
    pub fn name(&self) -> (r: &'static str)
        ensures
            r@ == self.name_text(),
    {
        match self {
            AnnotationKind::Notice => "Notice",
            AnnotationKind::Warning => "Warning",
            AnnotationKind::Error => "Error",
        }
    }

    /// Returns the word that opens a command of this kind on the wire.
    pub fn token(&self) -> (r: &'static str)
        ensures
            r@ == self.token_text(),
    {
        match self {
            AnnotationKind::Notice => "notice",
            AnnotationKind::Warning => "warning",
            AnnotationKind::Error => "error",
        }
    }

    /// Returns the kind as a summary shows it.
    pub fn to_string(&self) -> (r: String)
        ensures
            r@ == self.label_text(),
    {
        let mut r = String::new();
        r.append(self.emoji());
        r.append(" ");
        r.append(self.name());
        r
    }

    /// Returns the more severe of the two kinds.
    pub fn worse(self, other: AnnotationKind) -> (r: AnnotationKind)
        ensures
            r == if self.rank() >= other.rank() { self } else { other },
    {
        if self >= other {
            self
        } else {
            other
        }
    }
}

impl PartialOrd for AnnotationKind {
    fn partial_cmp(&self, other: &Self) -> (r: Option<Ordering>) {
        Some(
            match (self, other) {
                (AnnotationKind::Notice, AnnotationKind::Notice) => Ordering::Equal,
                (AnnotationKind::Notice, _) => Ordering::Less,
                (AnnotationKind::Warning, AnnotationKind::Notice) => Ordering::Greater,
                (AnnotationKind::Warning, AnnotationKind::Warning) => Ordering::Equal,
                (AnnotationKind::Warning, AnnotationKind::Error) => Ordering::Less,
                (AnnotationKind::Error, AnnotationKind::Error) => Ordering::Equal,
                (AnnotationKind::Error, _) => Ordering::Greater,
            },
        )
    }
}

impl PartialOrdSpecImpl for AnnotationKind {
    open spec fn obeys_partial_cmp_spec() -> bool {
        true
    }

    open spec fn partial_cmp_spec(&self, other: &Self) -> Option<Ordering> {
        if self.rank() < other.rank() {
            Some(Ordering::Less)
        } else if self.rank() > other.rank() {
            Some(Ordering::Greater)
        } else {
            Some(Ordering::Equal)
        }
    }
}

/// An annotation command.
#[derive(Debug, Clone, PartialEq, Eq)]
pub struct Annotation {
    /// Kind of annotation
    pub kind: AnnotationKind,
    /// File to annotate
    pub file: String,
    /// Start of the lines to annotate (1-based, inclusive)
    pub line: usize,
    /// End of the lines to annotate (1-based)
    pub end_line: Option<usize>,
    /// Start of the columns to annotate (1-based, inclusive)
    pub col: Option<usize>,
    /// End of the columns to annotate (1-based)
    pub end_column: Option<usize>,
    /// Annotation title
    pub title: Option<String>,
    /// Annotation message
    pub message: String,
}

/// What an annotation holds: the value that decides whether two annotations are the same.
pub struct AnnotationView {
    pub kind: AnnotationKind,
    pub file: Seq<char>,
    pub line: nat,
    pub end_line: Option<nat>,
    pub col: Option<nat>,
    pub end_column: Option<nat>,
    pub title: Option<Seq<char>>,
    pub message: Seq<char>,
}

/// The number that an optional machine number holds.
pub open spec fn number(n: Option<usize>) -> Option<nat> {
    match n {
        Some(n) => Some(n as nat),
        None => None,
    }
}

/// The text that an optional string holds.
pub open spec fn text(s: Option<String>) -> Option<Seq<char>> {
    match s {
        Some(s) => Some(s@),
        None => None,
    }
}

/// The command's message on the wire: trimmed, then `%`, the line feed and the carriage
/// return replaced, in this order, by `%25`, `%0A` and `%0D`.
pub open spec fn escaped(message: Seq<char>) -> Seq<char> {
    replaced(replaced(replaced(trimmed(message), '%', "%25"@), '\n', "%0A"@), '\r', "%0D"@)
}

/// What stands on the wire for one character of a message: `%25` for `%`, `%0A` for the line
/// feed, `%0D` for the carriage return, and the character itself for any other.
pub open spec fn escaped_char(c: char) -> Seq<char> {
    if c == '%' {
        "%25"@
    } else if c == '\n' {
        "%0A"@
    } else if c == '\r' {
        "%0D"@
    } else {
        seq![c]
    }
}

/// The characters of `text`, each as it stands on the wire.
pub open spec fn each_escaped(text: Seq<char>) -> Seq<char>
    decreases text.len(),
{
    if text.len() == 0 {
        Seq::empty()
    } else {
        each_escaped(text.drop_last()) + escaped_char(text.last())
    }
}

/// The texts that stand for the three characters hold neither a line feed nor a carriage
/// return: a replacement made later leaves them as they are.
proof fn lemma_codes_stay()
    ensures
        replaced("%25"@, '\n', "%0A"@) == "%25"@,
        replaced("%25"@, '\r', "%0D"@) == "%25"@,
        replaced("%0A"@, '\r', "%0D"@) == "%0A"@,
{
    reveal_strlit("%25");
    reveal_strlit("%0A");
    reveal_strlit("%0D");
    let (p, n, r) = ("%25"@, "%0A"@, "%0D"@);
    assert(p.len() == 3 && p[0] == '%' && p[1] == '2' && p[2] == '5');
    assert(n.len() == 3 && n[0] == '%' && n[1] == '0' && n[2] == 'A');
    assert(!p.contains('\n'));
    assert(!p.contains('\r'));
    assert(!n.contains('\r'));
    lemma_replaced_absent(p, '\n', n);
    lemma_replaced_absent(p, '\r', r);
    lemma_replaced_absent(n, '\r', r);
}

/// The three replacements, made one after another on a text of one character, give what
/// stands on the wire for the character.
proof fn lemma_replaced_char(c: char)
    ensures
        replaced(replaced(replaced(seq![c], '%', "%25"@), '\n', "%0A"@), '\r', "%0D"@)
            == escaped_char(c),
{
    let (p, n, r) = ("%25"@, "%0A"@, "%0D"@);
    let one = seq![c];
    lemma_codes_stay();
    lemma_replaced_one(c, '%', p);
    lemma_replaced_one(c, '\n', n);
    lemma_replaced_one(c, '\r', r);
    if c == '%' {
        assert(replaced(one, '%', p) == p);
        assert(replaced(p, '\n', n) == p);
        assert(replaced(p, '\r', r) == p);
    } else if c == '\n' {
        assert(replaced(one, '%', p) == one);
        assert(replaced(one, '\n', n) == n);
        assert(replaced(n, '\r', r) == n);
    } else if c == '\r' {
        assert(replaced(one, '%', p) == one);
        assert(replaced(one, '\n', n) == one);
        assert(replaced(one, '\r', r) == r);
    } else {
        assert(replaced(one, '%', p) == one);
        assert(replaced(one, '\n', n) == one);
        assert(replaced(one, '\r', r) == one);
    }
}

/// The three replacements, made one after another, encode each character of `text` once.
proof fn lemma_replaced_each(text: Seq<char>)
    ensures
        replaced(replaced(replaced(text, '%', "%25"@), '\n', "%0A"@), '\r', "%0D"@)
            == each_escaped(text),
    decreases text.len(),
{
    let (p, n, r) = ("%25"@, "%0A"@, "%0D"@);
    if text.len() == 0 {
        assert(replaced(text, '%', p) == text);
        assert(replaced(text, '\n', n) == text);
        assert(replaced(text, '\r', r) == text);
        assert(each_escaped(text) =~= text);
    } else {
        let init = text.drop_last();
        let one = seq![text.last()];
        assert(text =~= init + one);
        lemma_replaced_each(init);
        lemma_replaced_char(text.last());
        let init_first = replaced(init, '%', p);
        let one_first = replaced(one, '%', p);
        lemma_replaced_concat(init, one, '%', p);
        assert(replaced(text, '%', p) == init_first + one_first);
        let init_second = replaced(init_first, '\n', n);
        let one_second = replaced(one_first, '\n', n);
        lemma_replaced_concat(init_first, one_first, '\n', n);
        assert(replaced(replaced(text, '%', p), '\n', n) == init_second + one_second);
        lemma_replaced_concat(init_second, one_second, '\r', r);
        assert(replaced(replaced(replaced(text, '%', p), '\n', n), '\r', r) == replaced(
            init_second,
            '\r',
            r,
        ) + replaced(one_second, '\r', r));
        assert(replaced(init_second, '\r', r) == each_escaped(init));
        assert(replaced(one_second, '\r', r) == escaped_char(text.last()));
    }
}

/// On the wire each character of the trimmed message is encoded once: a `%` of the message
/// becomes `%25`, and the `%` that the encoding of a line feed or of a carriage return
/// brings is not encoded again.
pub proof fn lemma_escaped_once(message: Seq<char>)
    ensures
        escaped(message) == each_escaped(trimmed(message)),
{
    lemma_replaced_each(trimmed(message));
}

impl AnnotationView {
    /// The invariant of the data model: lines count from 1, the range of lines does not run
    /// backwards, and an end column comes with a start column only.
    pub open spec fn wf(self) -> bool {
        &&& self.line >= 1
        &&& self.end_line matches Some(end) ==> end >= self.line
        &&& self.end_column is Some ==> self.col is Some
    }

    /// Whether `self` comes before `other`: by file, in the order of paths; then by line; then
    /// by column, none first; then the more severe first; then by what is left, to tell any
    /// two annotations apart: end line, end column, title, message, and the file as text,
    /// which tells two ways of writing one path apart.
    pub open spec fn precedes(self, other: AnnotationView) -> bool {
        if parts(self.file) != parts(other.file) {
            path_lt(self.file, other.file)
        } else if self.line != other.line {
            self.line < other.line
        } else if self.col != other.col {
            option_lt(number_order(), self.col, other.col)
        } else if self.kind != other.kind {
            self.kind.rank() > other.kind.rank()
        } else if self.end_line != other.end_line {
            option_lt(number_order(), self.end_line, other.end_line)
        } else if self.end_column != other.end_column {
            option_lt(number_order(), self.end_column, other.end_column)
        } else if self.title != other.title {
            option_lt(text_order(), self.title, other.title)
        } else if self.message != other.message {
            text_lt(self.message, other.message)
        } else {
            text_lt(self.file, other.file)
        }
    }

    /// The command as one line of text on the wire.
    pub open spec fn encoded(self) -> Seq<char> {
        "::"@ + self.kind.token_text() + " file="@ + self.file + ",line="@ + decimal(self.line)
            + (match self.end_line {
            Some(end) => ",endLine="@ + decimal(end),
            None => Seq::empty(),
        }) + (match self.col {
            Some(col) => ",col="@ + decimal(col) + (match self.end_column {
                Some(end) => ",endColumn="@ + decimal(end),
                None => Seq::empty(),
            }),
            None => Seq::empty(),
        }) + (match self.title {
            Some(title) => ",title="@ + title,
            None => Seq::empty(),
        }) + "::"@ + escaped(self.message)
    }
}

/// The order of annotations, as a relation.
pub open spec fn annotation_order() -> spec_fn(AnnotationView, AnnotationView) -> bool {
    |a: AnnotationView, b: AnnotationView| a.precedes(b)
}

impl View for Annotation {
    type V = AnnotationView;

    open spec fn view(&self) -> AnnotationView {
        AnnotationView {
            kind: self.kind,
            file: self.file@,
            line: self.line as nat,
            end_line: number(self.end_line),
            col: number(self.col),
            end_column: number(self.end_column),
            title: text(self.title),
            message: self.message@,
        }
    }
}

/// The orders of the fields, each said of the fields of `a` and `b`.
proof fn lemma_field_orders(a: AnnotationView, b: AnnotationView)
    ensures
        lex_order(part_order())(parts(a.file), parts(b.file)) == path_lt(a.file, b.file),
        text_order()(a.file, b.file) == text_lt(a.file, b.file),
        number_order()(a.line, b.line) == (a.line < b.line),
        option_order(number_order())(a.col, b.col) == option_lt(number_order(), a.col, b.col),
        option_order(number_order())(a.end_line, b.end_line) == option_lt(
            number_order(),
            a.end_line,
            b.end_line,
        ),
        option_order(number_order())(a.end_column, b.end_column) == option_lt(
            number_order(),
            a.end_column,
            b.end_column,
        ),
        option_order(text_order())(a.title, b.title) == option_lt(text_order(), a.title, b.title),
        text_order()(a.message, b.message) == text_lt(a.message, b.message),
{
}

/// The orders of the fields are strict and total.
proof fn lemma_fields_ordered()
    ensures
        strict_total_ordering(lex_order(part_order())),
        strict_total_ordering(number_order()),
        strict_total_ordering(option_order(number_order())),
        strict_total_ordering(option_order(text_order())),
        strict_total_ordering(text_order()),
{
    lemma_parts_order();
    lemma_number_order();
    lemma_text_order();
    lemma_option_order(number_order());
    lemma_option_order(text_order());
}

/// The file decides first: an annotation whose file comes before that of another in the
/// order of paths comes before it, whatever the other fields hold.
pub proof fn lemma_file_decides(a: AnnotationView, b: AnnotationView)
    requires
        path_lt(a.file, b.file),
    ensures
        a.precedes(b),
        !b.precedes(a),
{
    lemma_path_order(a.file, b.file, a.file);
}

/// No annotation comes before itself.
pub proof fn lemma_precedes_irreflexive(a: AnnotationView)
    ensures
        !a.precedes(a),
{
    lemma_fields_ordered();
    lemma_field_orders(a, a);
}

/// Of two different annotations one comes before the other.
pub proof fn lemma_precedes_connected(a: AnnotationView, b: AnnotationView)
    requires
        a != b,
    ensures
        a.precedes(b) || b.precedes(a),
{
    lemma_fields_ordered();
    lemma_field_orders(a, b);
    lemma_field_orders(b, a);
}

/// An annotation that comes before another does not come after it.
pub proof fn lemma_precedes_asymmetric(a: AnnotationView, b: AnnotationView)
    requires
        a.precedes(b),
    ensures
        !b.precedes(a),
        a != b,
{
    lemma_fields_ordered();
    lemma_field_orders(a, b);
    lemma_field_orders(b, a);
    lemma_field_orders(a, a);
}

/// What comes before an annotation comes before all that it comes before.
pub proof fn lemma_precedes_transitive(a: AnnotationView, b: AnnotationView, c: AnnotationView)
    requires
        a.precedes(b),
        b.precedes(c),
    ensures
        a.precedes(c),
{
    lemma_fields_ordered();
    lemma_field_orders(a, b);
    lemma_field_orders(b, a);
    lemma_field_orders(b, c);
    lemma_field_orders(c, b);
    lemma_field_orders(a, c);
    lemma_field_orders(c, a);
}

/// The order of annotations is strict and total: any two different annotations are ordered,
/// one way only, and the order is transitive.
pub proof fn lemma_annotation_order()
    ensures
        strict_total_ordering(annotation_order()),
{
    let r = annotation_order();
    assert forall|a: AnnotationView| #[trigger] r(a, a) == false by {
        lemma_precedes_irreflexive(a);
    }
    assert forall|a: AnnotationView, b: AnnotationView, c: AnnotationView| #[trigger] r(a, b)
        && #[trigger] r(b, c) implies r(a, c) by {
        lemma_precedes_transitive(a, b, c);
    }
    assert forall|a: AnnotationView, b: AnnotationView| #[trigger] r(a, b) && #[trigger] r(
        b,
        a,
    ) implies a == b by {
        lemma_precedes_asymmetric(a, b);
    }
    assert forall|a: AnnotationView, b: AnnotationView| a != b implies #[trigger] r(a, b)
        || #[trigger] r(b, a) by {
        lemma_precedes_connected(a, b);
    }
}

/// How `a` stands to `b` among the numbers.
fn compare_numbers(a: usize, b: usize) -> (r: Precedence)
    ensures
        r == precedence(number_order(), a as nat, b as nat),
{
    if a == b {
        Precedence::Same
    } else if a < b {
        Precedence::Before
    } else {
        Precedence::After
    }
}

/// How `a` stands to `b` among the optional numbers.
fn compare_optional_numbers(a: Option<usize>, b: Option<usize>) -> (r: Precedence)
    ensures
        r == precedence(option_order(number_order()), number(a), number(b)),
{
    match (a, b) {
        (None, None) => Precedence::Same,
        (None, Some(_)) => Precedence::Before,
        (Some(_), None) => Precedence::After,
        (Some(x), Some(y)) => compare_numbers(x, y),
    }
}

/// How `a` stands to `b` in the order of text.
fn compare_strings(a: &str, b: &str) -> (r: Precedence)
    ensures
        r == precedence(text_order(), a@, b@),
{
    let left = chars_of(a);
    let right = chars_of(b);
    compare_texts(&left, &right)
}

/// How `a` stands to `b` among the optional texts.
fn compare_optional_strings(a: &Option<String>, b: &Option<String>) -> (r: Precedence)
    ensures
        r == precedence(option_order(text_order()), text(*a), text(*b)),
{
    match (a, b) {
        (None, None) => Precedence::Same,
        (None, Some(_)) => Precedence::Before,
        (Some(_), None) => Precedence::After,
        (Some(x), Some(y)) => compare_strings(x.as_str(), y.as_str()),
    }
}

/// The message of a command as it goes on the wire.
pub fn escape(message: &str) -> (r: String)
    ensures
        r@ == escaped(message@),
{
    let percent = replace(trim(message), '%', "%25");
    let feed = replace(percent.as_str(), '\n', "%0A");
    replace(feed.as_str(), '\r', "%0D")
}

impl Annotation {
    /// Clones `self`.
    pub fn to_owned(&self) -> (r: Annotation)
        ensures
            r == *self,
    {
        Annotation {
            kind: self.kind,
            file: self.file.clone(),
            line: self.line,
            end_line: self.end_line,
            col: self.col,
            end_column: self.end_column,
            title: match &self.title {
                Some(title) => Some(title.clone()),
                None => None,
            },
            message: self.message.clone(),
        }
    }

    /// How `self` stands to `other` in the order of annotations.
    pub fn compare(&self, other: &Annotation) -> (r: Precedence)
        ensures
            r == precedence(annotation_order(), self@, other@),
    {
        let by_file = compare_paths(self.file.as_str(), other.file.as_str());
        if by_file != Precedence::Same {
            proof {
                lemma_path_order(self@.file, other@.file, self@.file);
            }
            return by_file;
        }
        let by_line = compare_numbers(self.line, other.line);
        if by_line != Precedence::Same {
            return by_line;
        }
        let by_col = compare_optional_numbers(self.col, other.col);
        if by_col != Precedence::Same {
            return by_col;
        }
        if self.kind != other.kind {
            return if self.kind > other.kind {
                Precedence::Before
            } else {
                Precedence::After
            };
        }
        let by_end_line = compare_optional_numbers(self.end_line, other.end_line);
        if by_end_line != Precedence::Same {
            return by_end_line;
        }
        let by_end_column = compare_optional_numbers(self.end_column, other.end_column);
        if by_end_column != Precedence::Same {
            return by_end_column;
        }
        let by_title = compare_optional_strings(&self.title, &other.title);
        if by_title != Precedence::Same {
            return by_title;
        }
        let by_message = compare_strings(self.message.as_str(), other.message.as_str());
        if by_message != Precedence::Same {
            return by_message;
        }
        compare_strings(self.file.as_str(), other.file.as_str())
    }

    /// Compares `self` with `other` in the order of annotations.
    pub fn cmp(&self, other: &Annotation) -> (r: Ordering)
        ensures
            (r == Ordering::Less) == self@.precedes(other@),
            (r == Ordering::Equal) == (self@ == other@),
            (r == Ordering::Greater) == other@.precedes(self@),
    {
        proof {
            if self@ != other@ {
                lemma_precedes_connected(self@, other@);
            }
            if self@.precedes(other@) {
                lemma_precedes_asymmetric(self@, other@);
            }
            if other@.precedes(self@) {
                lemma_precedes_asymmetric(other@, self@);
            }
        }
        match self.compare(other) {
            Precedence::Before => Ordering::Less,
            Precedence::Same => Ordering::Equal,
            Precedence::After => Ordering::Greater,
        }
    }

    /// The command as one line of text on the wire.
    pub fn to_string(&self) -> (r: String)
        ensures
            r@ == self@.encoded(),
    {
        let mut r = String::new();
        r.append("::");
        r.append(self.kind.token());
        r.append(" file=");
        r.append(self.file.as_str());
        r.append(",line=");
        r.append(decimal_string(self.line).as_str());
        let mut lines = String::new();
        if let Some(end) = self.end_line {
            lines.append(",endLine=");
            lines.append(decimal_string(end).as_str());
        }
        r.append(lines.as_str());
        let mut columns = String::new();
        if let Some(col) = self.col {
            columns.append(",col=");
            columns.append(decimal_string(col).as_str());
            let mut end_column = String::new();
            if let Some(end) = self.end_column {
                end_column.append(",endColumn=");
                end_column.append(decimal_string(end).as_str());
            }
            columns.append(end_column.as_str());
        }
        r.append(columns.as_str());
        let mut title = String::new();
        if let Some(text) = &self.title {
            title.append(",title=");
            title.append(text.as_str());
        }
        r.append(title.as_str());
        r.append("::");
        r.append(escape(self.message.as_str()).as_str());
        r
    }
}

impl PartialOrd for Annotation {
    fn partial_cmp(&self, other: &Self) -> (r: Option<Ordering>) {
        Some(self.cmp(other))
    }
}

impl PartialOrdSpecImpl for Annotation {
    open spec fn obeys_partial_cmp_spec() -> bool {
        true
    }

    open spec fn partial_cmp_spec(&self, other: &Self) -> Option<Ordering> {
        if self@ == other@ {
            Some(Ordering::Equal)
        } else if self@.precedes(other@) {
            Some(Ordering::Less)
        } else {
            Some(Ordering::Greater)
        }
    }
}

} // verus!
