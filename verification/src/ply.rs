//! Reading meshes in the ASCII flavour of the PLY format.
//!
//! A file is taken as bytes. It is a sequence of lines, each ended by a
//! line feed, and a line is a sequence of words, set apart by ASCII white
//! space. Bytes behind the last line feed belong to no line. Coordinates
//! are handed out as the words that the file holds.

use vstd::prelude::*;
use vstd::string::StringSliceAdditionalSpecFns;

verus! {

/// The line feed.
pub const LF: u8 = 10;

/// ASCII white space: space, tab, line feed, vertical tab, form feed and
/// carriage return.
pub open spec fn is_space(b: u8) -> bool {
    b == 32 || (9 <= b <= 13)
}

/// The words of a line with `word` added to them, unless it is empty.
pub open spec fn flush(line: Seq<Seq<u8>>, word: Seq<u8>) -> Seq<Seq<u8>> {
    if word.len() > 0 {
        line.push(word)
    } else {
        line
    }
}

/// The lines that reading `buf` from `from` on adds to the lines `acc`,
/// where `word` is the part of a word and `line` the part of a line that
/// were read before `from`.
pub open spec fn read_lines(
    buf: Seq<u8>,
    from: int,
    word: Seq<u8>,
    line: Seq<Seq<u8>>,
    acc: Seq<Seq<Seq<u8>>>,
) -> Seq<Seq<Seq<u8>>>
    decreases buf.len() - from,
{
    if from < 0 || from >= buf.len() {
        acc
    } else if buf[from] == LF {
        read_lines(buf, from + 1, Seq::empty(), Seq::empty(), acc.push(flush(line, word)))
    } else if is_space(buf[from]) {
        read_lines(buf, from + 1, Seq::empty(), flush(line, word), acc)
    } else {
        read_lines(buf, from + 1, word.push(buf[from]), line, acc)
    }
}

/// The lines of a file, each as its words.
pub open spec fn file_lines(buf: Seq<u8>) -> Seq<Seq<Seq<u8>>> {
    read_lines(buf, 0, Seq::empty(), Seq::empty(), Seq::empty())
}

/// The words that the vectors of `v` hold.
pub open spec fn words_of(v: Seq<Vec<u8>>) -> Seq<Seq<u8>> {
    v.map_values(|w: Vec<u8>| w@)
}

/// Line `i` of `lines`, and no words where there is no such line.
pub open spec fn line_at(lines: Seq<Seq<Seq<u8>>>, i: int) -> Seq<Seq<u8>> {
    if 0 <= i < lines.len() {
        lines[i]
    } else {
        Seq::empty()
    }
}

/// The number of lines read after one more is asked for behind `i` lines.
pub open spec fn step(lines: Seq<Seq<Seq<u8>>>, i: int) -> int {
    if 0 <= i < lines.len() {
        i + 1
    } else {
        i
    }
}

/// Reading on only adds lines to those that were read.
pub proof fn lemma_read_lines_extends(
    buf: Seq<u8>,
    from: int,
    word: Seq<u8>,
    line: Seq<Seq<u8>>,
    acc: Seq<Seq<Seq<u8>>>,
)
    ensures
        read_lines(buf, from, word, line, acc).len() >= acc.len(),
        read_lines(buf, from, word, line, acc).take(acc.len() as int) == acc,
    decreases buf.len() - from,
{
    let all = read_lines(buf, from, word, line, acc);
    if from < 0 || from >= buf.len() {
        assert(all.take(acc.len() as int) =~= acc);
    } else if buf[from] == LF {
        let more = acc.push(flush(line, word));
        lemma_read_lines_extends(buf, from + 1, Seq::empty(), Seq::empty(), more);
        assert(all.take(acc.len() as int) =~= all.take(more.len() as int).take(acc.len() as int));
        assert(more.take(acc.len() as int) =~= acc);
    } else if is_space(buf[from]) {
        lemma_read_lines_extends(buf, from + 1, Seq::empty(), flush(line, word), acc);
    } else {
        lemma_read_lines_extends(buf, from + 1, word.push(buf[from]), line, acc);
    }
}

/// A reader of lines.
pub struct Reader<'a> {
    /// The number of lines read so far.
    pub lineno: usize,
    /// The whole file.
    pub buffer: &'a [u8],
    /// Where the next line starts.
    pub pos: usize,
    /// The words of the line read last.
    pub current: Vec<Vec<u8>>,
}

impl<'a> Reader<'a> {
    /// The lines of the file.
    pub open spec fn lines(self) -> Seq<Seq<Seq<u8>>> {
        file_lines(self.buffer@)
    }

    /// The words of the line read last.
    pub open spec fn words(self) -> Seq<Seq<u8>> {
        words_of(self.current@)
    }

    /// The reader stands at the start of a line, behind the lines that it
    /// has counted.
    pub open spec fn wf(self) -> bool {
        &&& self.lineno <= self.pos <= self.buffer@.len()
        &&& self.lineno <= self.lines().len()
        &&& read_lines(
            self.buffer@,
            self.pos as int,
            Seq::empty(),
            Seq::empty(),
            self.lines().take(self.lineno as int),
        ) == self.lines()
    }

    pub fn new(buffer: &'a [u8]) -> (r: Self)
        ensures
            r.wf(),
            r.buffer == buffer,
            r.lineno == 0,
            r.pos == 0,
            r.words() == Seq::<Seq<u8>>::empty(),
    {
        let r = Reader { lineno: 0, buffer, pos: 0, current: Vec::new() };
        proof {
            assert(r.lines().take(0) =~= Seq::<Seq<Seq<u8>>>::empty());
            assert(r.words() =~= Seq::<Seq<u8>>::empty());
        }
        r
    }

    /// Reads the next line and makes its words the current ones. Where no
    /// line is left, there are no current words and the count of lines
    /// stays.
    pub fn next(&mut self)
        requires
            old(self).wf(),
        ensures
            final(self).wf(),
            final(self).buffer == old(self).buffer,
            final(self).lineno == step(old(self).lines(), old(self).lineno as int),
            final(self).words() == line_at(old(self).lines(), old(self).lineno as int),
    {
        let buffer = self.buffer;
        let lineno = self.lineno;
        let ghost lines = file_lines(buffer@);
        let ghost done = lines.take(lineno as int);
        let n = buffer.len();
        let mut line: Vec<Vec<u8>> = Vec::new();
        let mut word: Vec<u8> = Vec::new();
        let mut k: usize = self.pos;
        let mut found = false;
        proof {
            assert(words_of(line@) =~= Seq::<Seq<u8>>::empty());
        }
        while k < n && !found
            invariant
                lineno <= k <= n == buffer@.len(),
                found ==> lineno < k,
                lines == file_lines(buffer@),
                done == lines.take(lineno as int),
                lineno <= lines.len(),
                !found ==> read_lines(buffer@, k as int, word@, words_of(line@), done) == lines,
                found ==> read_lines(
                    buffer@,
                    k as int,
                    Seq::empty(),
                    Seq::empty(),
                    done.push(words_of(line@)),
                ) == lines,
            decreases n - k,
        {
            let b = buffer[k];
            if b == LF || b == 32 || (9 <= b && b <= 13) {
                if word.len() > 0 {
                    let ghost before = words_of(line@);
                    let ghost full = word@;
                    line.push(word);
                    proof {
                        assert(words_of(line@) =~= before.push(full));
                    }
                    word = Vec::new();
                }
                proof {
                    assert(word@ =~= Seq::<u8>::empty());
                }
                found = b == LF;
            } else {
                word.push(b);
            }
            k = k + 1;
        }
        if found {
            proof {
                let more = done.push(words_of(line@));
                lemma_read_lines_extends(buffer@, k as int, Seq::empty(), Seq::empty(), more);
                assert(lines.take(lineno + 1) == more);
                assert(more[lineno as int] == words_of(line@));
            }
            self.current = line;
            self.pos = k;
            self.lineno = lineno + 1;
        } else {
            proof {
                assert(done == lines);
                assert(lines.take(lineno as int).len() == lineno);
            }
            self.current = Vec::new();
            self.pos = n;
            proof {
                assert(self.words() =~= Seq::<Seq<u8>>::empty());
            }
        }
    }

    /// The words of the line read last.
    pub fn current(&self) -> (r: &Vec<Vec<u8>>)
        ensures
            words_of(r@) == self.words(),
    {
        &self.current
    }
}


/// The word `w` is `text`.
#[verifier::opaque]
pub open spec fn is_word(w: Seq<u8>, text: &str) -> bool {
    w == text.spec_bytes()
}

/// The line starts with the word `text`.
pub open spec fn starts_with(line: Seq<Seq<u8>>, text: &str) -> bool {
    line.len() > 0 && is_word(line[0], text)
}

/// Whether two runs of bytes are the same.
pub fn same_bytes(a: &[u8], b: &[u8]) -> (r: bool)
    ensures
        r == (a@ == b@),
{
    if a.len() != b.len() {
        return false;
    }
    let mut k: usize = 0;
    while k < a.len()
        invariant
            k <= a@.len() == b@.len(),
            forall|j: int| 0 <= j < k ==> a@[j] == b@[j],
        decreases a.len() - k,
    {
        if a[k] != b[k] {
            return false;
        }
        k = k + 1;
    }
    proof {
        assert(a@ =~= b@);
    }
    true
}

/// Whether the word `w` is `text`.
pub fn word_is(w: &Vec<u8>, text: &str) -> (r: bool)
    ensures
        r == is_word(w@, text),
{
    reveal(is_word);
    same_bytes(w.as_slice(), text.as_bytes())
}

/// Whether the line `line` starts with the word `text`.
pub fn line_starts_with(line: &Vec<Vec<u8>>, text: &str) -> (r: bool)
    ensures
        r == starts_with(words_of(line@), text),
{
    line.len() > 0 && word_is(&line[0], text)
}

/// A copy of the bytes of `w`.
pub fn copy_word(w: &Vec<u8>) -> (r: Vec<u8>)
    ensures
        r@ == w@,
{
    let mut r: Vec<u8> = Vec::new();
    let mut k: usize = 0;
    while k < w.len()
        invariant
            k <= w@.len(),
            r@ == w@.take(k as int),
        decreases w.len() - k,
    {
        r.push(w[k]);
        proof {
            assert(r@ =~= w@.take(k + 1));
        }
        k = k + 1;
    }
    proof {
        assert(w@.take(w@.len() as int) =~= w@);
    }
    r
}

/// The byte is a decimal digit.
pub open spec fn is_digit(b: u8) -> bool {
    48 <= b <= 57
}

/// The value of a run of decimal digits.
pub open spec fn decimal(s: Seq<u8>) -> int
    decreases s.len(),
{
    if s.len() == 0 {
        0
    } else {
        decimal(s.drop_last()) * 10 + (s.last() - 48)
    }
}

/// Every byte of `s` is a decimal digit.
pub open spec fn all_digits(s: Seq<u8>) -> bool {
    forall|i: int| 0 <= i < s.len() ==> is_digit(#[trigger] s[i])
}

/// The digits of a number: the word without a plus sign in front.
pub open spec fn unsigned_digits(w: Seq<u8>) -> Seq<u8> {
    if w.len() > 0 && w[0] == 43 {
        w.skip(1)
    } else {
        w
    }
}

/// The number that the word `w` writes, if it is at most `max`: decimal
/// digits, at least one, with or without a plus sign in front.
pub open spec fn parse_unsigned(w: Seq<u8>, max: int) -> Option<int> {
    let digits = unsigned_digits(w);
    if digits.len() > 0 && all_digits(digits) && decimal(digits) <= max {
        Some(decimal(digits))
    } else {
        None
    }
}

/// Digits added behind a number do not make it smaller.
pub proof fn lemma_decimal_grows(s: Seq<u8>, k: int)
    requires
        0 <= k <= s.len(),
        all_digits(s),
    ensures
        0 <= decimal(s.take(k)) <= decimal(s),
    decreases s.len() - k,
{
    if k < s.len() {
        lemma_decimal_grows(s, k + 1);
        assert(s.take(k + 1).drop_last() =~= s.take(k));
        assert(is_digit(s[k]));
        lemma_decimal_nonnegative(s.take(k));
    } else {
        assert(s.take(k) =~= s);
        lemma_decimal_nonnegative(s);
    }
}

/// The value of a run of digits is not negative.
pub proof fn lemma_decimal_nonnegative(s: Seq<u8>)
    requires
        all_digits(s),
    ensures
        0 <= decimal(s),
    decreases s.len(),
{
    if s.len() > 0 {
        assert(is_digit(s.last()));
        lemma_decimal_nonnegative(s.drop_last());
    }
}

/// Reads the number that the word `w` writes, if it is at most `max`.
pub fn parse_number(w: &Vec<u8>, max: u64) -> (r: Option<u64>)
    ensures
        match r {
            Some(n) => parse_unsigned(w@, max as int) == Some(n as int),
            None => parse_unsigned(w@, max as int) is None,
        },
{
    let start: usize = if w.len() > 0 && w[0] == 43 {
        1
    } else {
        0
    };
    let ghost digits = unsigned_digits(w@);
    if start == w.len() {
        return None;
    }
    let mut value: u64 = 0;
    let mut k: usize = start;
    while k < w.len()
        invariant
            start <= k <= w@.len(),
            digits == w@.skip(start as int),
            digits == unsigned_digits(w@),
            forall|j: int| 0 <= j < k - start ==> is_digit(#[trigger] digits[j]),
            value == decimal(digits.take(k - start)),
            value <= max,
        decreases w.len() - k,
    {
        let b = w[k];
        proof {
            assert(digits[k - start] == b);
            assert(digits.take(k - start + 1).drop_last() =~= digits.take(k - start));
        }
        if b < 48 || b > 57 {
            proof {
                assert(!is_digit(digits[k - start]));
            }
            return None;
        }
        let d: u64 = (b - 48) as u64;
        if d > max || value > (max - d) / 10 {
            proof {
                assert(value * 10 + d > max);
                assert(decimal(digits.take(k - start + 1)) == value * 10 + d);
                if all_digits(digits) {
                    lemma_decimal_grows(digits, k - start + 1);
                }
            }
            return None;
        }
        value = value * 10 + d;
        k = k + 1;
    }
    proof {
        assert(digits.take(k - start) =~= digits);
    }
    Some(value)
}


/// The type of a number in a PLY file.
#[derive(Debug, Clone, Copy, PartialEq, Eq, Structural)]
pub enum ScalarType {
    Int8,
    UInt8,
    Int16,
    UInt16,
    Int32,
    UInt32,
    Float32,
    Float64,
}

/// The type of a property: one number, or a list of numbers with its
/// length in front. `List(a, b)` is a list of `b` whose length is an `a`.
#[derive(Debug, Clone, Copy, PartialEq, Eq, Structural)]
pub enum PropType {
    Scalar(ScalarType),
    List(ScalarType, ScalarType),
}

/// What is wrong with a line.
#[derive(Debug, Clone, Copy, PartialEq, Eq, Structural)]
pub enum Problem {
    /// The first line is not `ply`.
    ExpectedPly,
    /// The second line is not `format ascii 1.0`.
    ExpectedFormat,
    /// An `element` line gives no name.
    MissingElementName,
    /// An `element` line gives no count, or one that is no number.
    BadElementCount,
    /// A `property` line gives no type that is known.
    InvalidType,
    /// The header does not end with `end_header`.
    ExpectedEndHeader,
    /// The vertices have no `x` of type `float32`.
    NoX,
    /// The vertices have no `y` of type `float32`.
    NoY,
    /// The vertices have no `z` of type `float32`.
    NoZ,
    /// A vertex line does not hold this many words.
    WrongWidth(usize),
    /// The faces have no list of vertex indices.
    NoVertexIndices,
    /// A word that should be a number is none.
    BadInteger,
    /// A face has fewer than three vertices, or more than its line holds.
    BadVertexCount,
    /// A face names the vertex `index`, where only `count` vertices are.
    BadVertexIndex { index: u32, count: usize },
    /// A vertex line gives fewer than three coordinates.
    BadVertex,
    /// A triangle line gives fewer than three numbers.
    BadFace,
    /// A triangle names a vertex that is not among the `count` before it.
    BadFaceIndex { count: usize },
    /// A line starts with a word that names no kind of line.
    UnexpectedToken,
}

/// Why a file could not be read.
#[derive(Debug, Clone, Copy, PartialEq, Eq, Structural)]
pub enum LoadError {
    /// After that many lines, a line had this problem.
    Parse(usize, Problem),
}

/// One property of an element.
#[derive(Debug, Clone, PartialEq, Eq)]
pub struct Property {
    pub name: Vec<u8>,
    pub typ: PropType,
}

/// One element of the header: its name, how many there are of it, and
/// the properties of each.
#[derive(Debug, Clone, PartialEq, Eq)]
pub struct Element {
    pub name: Vec<u8>,
    pub count: usize,
    pub props: Vec<Property>,
}

/// What a [`Property`] holds.
pub struct PropertyView {
    pub name: Seq<u8>,
    pub typ: PropType,
}

/// What an [`Element`] holds.
pub struct ElementView {
    pub name: Seq<u8>,
    pub count: usize,
    pub props: Seq<PropertyView>,
}

impl View for Property {
    type V = PropertyView;

    open spec fn view(&self) -> PropertyView {
        PropertyView { name: self.name@, typ: self.typ }
    }
}

/// What the properties of `v` hold.
pub open spec fn props_view(v: Seq<Property>) -> Seq<PropertyView> {
    v.map_values(|p: Property| p@)
}

impl View for Element {
    type V = ElementView;

    open spec fn view(&self) -> ElementView {
        ElementView { name: self.name@, count: self.count, props: props_view(self.props@) }
    }
}

/// What the elements of `v` hold.
pub open spec fn elements_view(v: Seq<Element>) -> Seq<ElementView> {
    v.map_values(|e: Element| e@)
}

/// The number type that the word `w` names. Each has two names.
pub open spec fn scalar_type(w: Seq<u8>) -> Option<ScalarType> {
    if is_word(w, "char") || is_word(w, "int8") {
        Some(ScalarType::Int8)
    } else if is_word(w, "uchar") || is_word(w, "uint8") {
        Some(ScalarType::UInt8)
    } else if is_word(w, "short") || is_word(w, "int16") {
        Some(ScalarType::Int16)
    } else if is_word(w, "ushort") || is_word(w, "uint16") {
        Some(ScalarType::UInt16)
    } else if is_word(w, "int") || is_word(w, "int32") {
        Some(ScalarType::Int32)
    } else if is_word(w, "uint") || is_word(w, "uint32") {
        Some(ScalarType::UInt32)
    } else if is_word(w, "float") || is_word(w, "float32") {
        Some(ScalarType::Float32)
    } else if is_word(w, "double") || is_word(w, "float64") {
        Some(ScalarType::Float64)
    } else {
        None
    }
}

/// The type that the words `parts` name: one word for a number type, or
/// `list` and two number types.
pub open spec fn spec_normalize_type(parts: Seq<Seq<u8>>) -> Option<PropType> {
    if parts.len() == 1 {
        match scalar_type(parts[0]) {
            Some(t) => Some(PropType::Scalar(t)),
            None => None,
        }
    } else if parts.len() == 3 && is_word(parts[0], "list") {
        match (scalar_type(parts[1]), scalar_type(parts[2])) {
            (Some(a), Some(b)) => Some(PropType::List(a, b)),
            _ => None,
        }
    } else {
        None
    }
}

/// The number type that the word `w` names.
pub fn scalar_type_of(w: &Vec<u8>) -> (r: Option<ScalarType>)
    ensures
        r == scalar_type(w@),
{
    if word_is(w, "char") || word_is(w, "int8") {
        Some(ScalarType::Int8)
    } else if word_is(w, "uchar") || word_is(w, "uint8") {
        Some(ScalarType::UInt8)
    } else if word_is(w, "short") || word_is(w, "int16") {
        Some(ScalarType::Int16)
    } else if word_is(w, "ushort") || word_is(w, "uint16") {
        Some(ScalarType::UInt16)
    } else if word_is(w, "int") || word_is(w, "int32") {
        Some(ScalarType::Int32)
    } else if word_is(w, "uint") || word_is(w, "uint32") {
        Some(ScalarType::UInt32)
    } else if word_is(w, "float") || word_is(w, "float32") {
        Some(ScalarType::Float32)
    } else if word_is(w, "double") || word_is(w, "float64") {
        Some(ScalarType::Float64)
    } else {
        None
    }
}

/// The type that the words `parts[from..to]` name.
pub fn normalize_type(parts: &Vec<Vec<u8>>, from: usize, to: usize) -> (r: Option<PropType>)
    requires
        from <= to <= parts@.len(),
    ensures
        r == spec_normalize_type(words_of(parts@).subrange(from as int, to as int)),
{
    if to - from == 1 {
        match scalar_type_of(&parts[from]) {
            Some(t) => Some(PropType::Scalar(t)),
            None => None,
        }
    } else if to - from == 3 && word_is(&parts[from], "list") {
        match scalar_type_of(&parts[from + 1]) {
            Some(a) => match scalar_type_of(&parts[from + 2]) {
                Some(b) => Some(PropType::List(a, b)),
                None => None,
            },
            None => None,
        }
    } else {
        None
    }
}

/// The words of a `property` line that name its type: those between
/// `property` and the last word, which is the name of the property.
pub open spec fn type_words(line: Seq<Seq<u8>>) -> Seq<Seq<u8>> {
    if line.len() >= 2 {
        line.subrange(1, line.len() - 1)
    } else {
        Seq::empty()
    }
}

/// What is left of the header, read as a machine that takes one line at a
/// time. `at` lines have been read, `cur` is the line read last, `pending`
/// is the element whose properties are being read, and `acc` are the
/// elements that are complete. The result is the elements and the number
/// of lines read when `end_header` is found.
///
/// A `comment` line is passed over wherever it stands. An `element` line
/// starts an element; the `property` lines behind it give its properties,
/// and the first other line ends it.
#[verifier::opaque]
pub open spec fn header_rest(
    lines: Seq<Seq<Seq<u8>>>,
    at: int,
    cur: Seq<Seq<u8>>,
    pending: Option<ElementView>,
    acc: Seq<ElementView>,
) -> Result<(Seq<ElementView>, int), LoadError>
    decreases lines.len() - at, cur.len(), (if pending is Some {
        1int
    } else {
        0int
    }),
{
    match pending {
        Some(e) => {
            if starts_with(cur, "property") {
                match spec_normalize_type(type_words(cur)) {
                    Some(t) => header_rest(
                        lines,
                        step(lines, at),
                        line_at(lines, at),
                        Some(
                            ElementView {
                                props: e.props.push(PropertyView { name: cur.last(), typ: t }),
                                ..e
                            },
                        ),
                        acc,
                    ),
                    None => Err(LoadError::Parse(at as usize, Problem::InvalidType)),
                }
            } else if starts_with(cur, "comment") {
                header_rest(lines, step(lines, at), line_at(lines, at), pending, acc)
            } else {
                header_rest(lines, at, cur, None, acc.push(e))
            }
        },
        None => {
            if starts_with(cur, "element") {
                if cur.len() < 2 {
                    Err(LoadError::Parse(at as usize, Problem::MissingElementName))
                } else {
                    match parse_unsigned(
                        if cur.len() > 2 {
                            cur[2]
                        } else {
                            Seq::empty()
                        },
                        usize::MAX as int,
                    ) {
                        Some(n) => header_rest(
                            lines,
                            step(lines, at),
                            line_at(lines, at),
                            Some(
                                ElementView { name: cur[1], count: n as usize, props: Seq::empty() },
                            ),
                            acc,
                        ),
                        None => Err(LoadError::Parse(at as usize, Problem::BadElementCount)),
                    }
                }
            } else if starts_with(cur, "comment") {
                header_rest(lines, step(lines, at), line_at(lines, at), None, acc)
            } else if cur.len() == 1 && is_word(cur[0], "end_header") {
                Ok((acc, at))
            } else {
                Err(LoadError::Parse(at as usize, Problem::ExpectedEndHeader))
            }
        },
    }
}

/// What the machine does with a line while it reads the properties of
/// the element `e`.
pub proof fn lemma_header_in_element(
    lines: Seq<Seq<Seq<u8>>>,
    at: int,
    cur: Seq<Seq<u8>>,
    e: ElementView,
    acc: Seq<ElementView>,
)
    ensures
        starts_with(cur, "property") && spec_normalize_type(type_words(cur)) is None
            ==> header_rest(lines, at, cur, Some(e), acc) == Err::<
            (Seq<ElementView>, int),
            LoadError,
        >(LoadError::Parse(at as usize, Problem::InvalidType)),
        starts_with(cur, "property") && spec_normalize_type(type_words(cur)) is Some
            ==> header_rest(lines, at, cur, Some(e), acc) == header_rest(
            lines,
            step(lines, at),
            line_at(lines, at),
            Some(
                ElementView {
                    props: e.props.push(
                        PropertyView {
                            name: cur.last(),
                            typ: spec_normalize_type(type_words(cur)).unwrap(),
                        },
                    ),
                    ..e
                },
            ),
            acc,
        ),
        !starts_with(cur, "property") && starts_with(cur, "comment") ==> header_rest(
            lines,
            at,
            cur,
            Some(e),
            acc,
        ) == header_rest(lines, step(lines, at), line_at(lines, at), Some(e), acc),
        !starts_with(cur, "property") && !starts_with(cur, "comment") ==> header_rest(
            lines,
            at,
            cur,
            Some(e),
            acc,
        ) == header_rest(lines, at, cur, None, acc.push(e)),
{
    reveal(header_rest);
}

/// What the machine does with a line between elements.
pub proof fn lemma_header_between(
    lines: Seq<Seq<Seq<u8>>>,
    at: int,
    cur: Seq<Seq<u8>>,
    acc: Seq<ElementView>,
)
    ensures
        starts_with(cur, "element") && cur.len() < 2 ==> header_rest(lines, at, cur, None, acc)
            == Err::<(Seq<ElementView>, int), LoadError>(
            LoadError::Parse(at as usize, Problem::MissingElementName),
        ),
        starts_with(cur, "element") && cur.len() == 2 ==> header_rest(lines, at, cur, None, acc)
            == Err::<(Seq<ElementView>, int), LoadError>(
            LoadError::Parse(at as usize, Problem::BadElementCount),
        ),
        starts_with(cur, "element") && cur.len() > 2 && parse_unsigned(cur[2], usize::MAX as int)
            is None ==> header_rest(lines, at, cur, None, acc) == Err::<
            (Seq<ElementView>, int),
            LoadError,
        >(LoadError::Parse(at as usize, Problem::BadElementCount)),
        starts_with(cur, "element") && cur.len() > 2 && parse_unsigned(cur[2], usize::MAX as int)
            is Some ==> header_rest(lines, at, cur, None, acc) == header_rest(
            lines,
            step(lines, at),
            line_at(lines, at),
            Some(
                ElementView {
                    name: cur[1],
                    count: parse_unsigned(cur[2], usize::MAX as int).unwrap() as usize,
                    props: Seq::empty(),
                },
            ),
            acc,
        ),
        !starts_with(cur, "element") && starts_with(cur, "comment") ==> header_rest(
            lines,
            at,
            cur,
            None,
            acc,
        ) == header_rest(lines, step(lines, at), line_at(lines, at), None, acc),
        !starts_with(cur, "element") && !starts_with(cur, "comment") && cur.len() == 1 && is_word(
            cur[0],
            "end_header",
        ) ==> header_rest(lines, at, cur, None, acc) == Ok::<(Seq<ElementView>, int), LoadError>(
            (acc, at),
        ),
        !starts_with(cur, "element") && !starts_with(cur, "comment") && !(cur.len() == 1
            && is_word(cur[0], "end_header")) ==> header_rest(lines, at, cur, None, acc) == Err::<
            (Seq<ElementView>, int),
            LoadError,
        >(LoadError::Parse(at as usize, Problem::ExpectedEndHeader)),
{
    reveal(header_rest);
    assert(parse_unsigned(Seq::<u8>::empty(), usize::MAX as int) is None);
}

/// The header that starts behind `at` lines: the line `ply`, the line
/// `format ascii 1.0`, then elements and comments up to `end_header`.
pub open spec fn spec_parse_header(lines: Seq<Seq<Seq<u8>>>, at: int) -> Result<
    (Seq<ElementView>, int),
    LoadError,
> {
    let first = line_at(lines, at);
    let at1 = step(lines, at);
    let second = line_at(lines, at1);
    let at2 = step(lines, at1);
    if !(first.len() == 1 && is_word(first[0], "ply")) {
        Err(LoadError::Parse(at1 as usize, Problem::ExpectedPly))
    } else if !(second.len() == 3 && is_word(second[0], "format") && is_word(second[1], "ascii")
        && is_word(second[2], "1.0")) {
        Err(LoadError::Parse(at2 as usize, Problem::ExpectedFormat))
    } else {
        header_rest(lines, step(lines, at2), line_at(lines, at2), None, Seq::empty())
    }
}


/// Reads the header: the elements of the file with their properties, in
/// the order of the file. The reader is left behind the line
/// `end_header`.
#[verifier::rlimit(40)]
pub fn parse_header(reader: &mut Reader) -> (r: Result<Vec<Element>, LoadError>)
    requires
        old(reader).wf(),
    ensures
        final(reader).wf(),
        final(reader).buffer == old(reader).buffer,
        match r {
            Ok(v) => spec_parse_header(old(reader).lines(), old(reader).lineno as int) == Ok::<
                (Seq<ElementView>, int),
                LoadError,
            >((elements_view(v@), final(reader).lineno as int)),
            Err(e) => spec_parse_header(old(reader).lines(), old(reader).lineno as int) == Err::<
                (Seq<ElementView>, int),
                LoadError,
            >(e),
        },
{
    let ghost lines = reader.lines();
    let ghost target = spec_parse_header(lines, reader.lineno as int);
    let ghost buffer = reader.buffer;
    reader.next();
    if !(reader.current.len() == 1 && word_is(&reader.current[0], "ply")) {
        return Err(LoadError::Parse(reader.lineno, Problem::ExpectedPly));
    }
    reader.next();
    if !(reader.current.len() == 3 && word_is(&reader.current[0], "format") && word_is(
        &reader.current[1],
        "ascii",
    ) && word_is(&reader.current[2], "1.0")) {
        return Err(LoadError::Parse(reader.lineno, Problem::ExpectedFormat));
    }
    reader.next();
    let mut acc: Vec<Element> = Vec::new();
    let mut pending = false;
    let mut name: Vec<u8> = Vec::new();
    let mut count: usize = 0;
    let mut props: Vec<Property> = Vec::new();
    proof {
        assert(elements_view(acc@) =~= Seq::<ElementView>::empty());
    }
    loop
        invariant
            reader.wf(),
            reader.buffer == buffer,
            buffer == old(reader).buffer,
            lines == file_lines(buffer@),
            target == spec_parse_header(old(reader).lines(), old(reader).lineno as int),
            header_rest(
                lines,
                reader.lineno as int,
                reader.words(),
                if pending {
                    Some(ElementView { name: name@, count, props: props_view(props@) })
                } else {
                    None
                },
                elements_view(acc@),
            ) == target,
        decreases lines.len() - reader.lineno, reader.words().len(), (if pending {
            1int
        } else {
            0int
        }),
    {
        let n = reader.current.len();
        let ghost cur = reader.words();
        proof {
            lemma_header_in_element(
                lines,
                reader.lineno as int,
                cur,
                ElementView { name: name@, count, props: props_view(props@) },
                elements_view(acc@),
            );
            lemma_header_between(lines, reader.lineno as int, cur, elements_view(acc@));
        }
        if pending {
            if line_starts_with(&reader.current, "property") {
                let typ = if n >= 2 {
                    proof {
                        assert(words_of(reader.current@).subrange(1, n - 1) =~= type_words(cur));
                    }
                    normalize_type(&reader.current, 1, n - 1)
                } else {
                    proof {
                        assert(words_of(reader.current@).subrange(0, 0) =~= type_words(cur));
                    }
                    normalize_type(&reader.current, 0, 0)
                };
                match typ {
                    Some(t) => {
                        let key = copy_word(&reader.current[n - 1]);
                        let ghost before = props_view(props@);
                        props.push(Property { name: key, typ: t });
                        proof {
                            assert(props_view(props@) =~= before.push(
                                PropertyView { name: cur.last(), typ: t },
                            ));
                        }
                        reader.next();
                    },
                    None => {
                        return Err(LoadError::Parse(reader.lineno, Problem::InvalidType));
                    },
                }
            } else if line_starts_with(&reader.current, "comment") {
                reader.next();
            } else {
                let ghost before = elements_view(acc@);
                let ghost done = ElementView { name: name@, count, props: props_view(props@) };
                acc.push(Element { name, count, props });
                proof {
                    assert(elements_view(acc@) =~= before.push(done));
                }
                pending = false;
                name = Vec::new();
                props = Vec::new();
            }
        } else {
            if line_starts_with(&reader.current, "element") {
                if n < 2 {
                    return Err(LoadError::Parse(reader.lineno, Problem::MissingElementName));
                }
                let number = if n > 2 {
                    parse_number(&reader.current[2], usize::MAX as u64)
                } else {
                    None
                };
                match number {
                    Some(value) => {
                        name = copy_word(&reader.current[1]);
                        count = value as usize;
                        props = Vec::new();
                        pending = true;
                        proof {
                            assert(props_view(props@) =~= Seq::<PropertyView>::empty());
                        }
                        reader.next();
                    },
                    None => {
                        return Err(LoadError::Parse(reader.lineno, Problem::BadElementCount));
                    },
                }
            } else if line_starts_with(&reader.current, "comment") {
                reader.next();
            } else if n == 1 && word_is(&reader.current[0], "end_header") {
                return Ok(acc);
            } else {
                return Err(LoadError::Parse(reader.lineno, Problem::ExpectedEndHeader));
            }
        }
    }
}


/// One vertex, as the file writes it: the words of its three coordinates,
/// and the number of lines read when its line was.
#[derive(Debug, Clone, PartialEq, Eq)]
pub struct Vertex {
    pub line: usize,
    pub x: Vec<u8>,
    pub y: Vec<u8>,
    pub z: Vec<u8>,
}

/// What a [`Vertex`] holds.
pub struct VertexView {
    pub line: usize,
    pub x: Seq<u8>,
    pub y: Seq<u8>,
    pub z: Seq<u8>,
}

impl View for Vertex {
    type V = VertexView;

    open spec fn view(&self) -> VertexView {
        VertexView { line: self.line, x: self.x@, y: self.y@, z: self.z@ }
    }
}

/// What the vertices of `v` hold.
pub open spec fn vertices_view(v: Seq<Vertex>) -> Seq<VertexView> {
    v.map_values(|p: Vertex| p@)
}

/// The corners of the triangles of `v`.
pub open spec fn faces_view(v: Seq<[u32; 3]>) -> Seq<Seq<u32>> {
    v.map_values(|f: [u32; 3]| f@)
}

/// The property is the coordinate `name`: a `float32` of that name.
pub open spec fn is_coord(p: PropertyView, name: &str) -> bool {
    is_word(p.name, name) && p.typ == PropType::Scalar(ScalarType::Float32)
}

/// The index of the last of the first `upto` properties that is the
/// coordinate `name`.
pub open spec fn coord_index(props: Seq<PropertyView>, name: &str, upto: int) -> Option<int>
    decreases upto,
{
    if upto <= 0 {
        None
    } else if is_coord(props[upto - 1], name) {
        Some(upto - 1)
    } else {
        coord_index(props, name, upto - 1)
    }
}

/// The index of the last property that is the coordinate `name`.
pub fn find_coord(props: &Vec<Property>, name: &str) -> (r: Option<usize>)
    ensures
        match r {
            Some(i) => coord_index(props_view(props@), name, props@.len() as int) == Some(
                i as int,
            ) && i < props@.len(),
            None => coord_index(props_view(props@), name, props@.len() as int) is None,
        },
{
    let mut k: usize = props.len();
    while k > 0
        invariant
            k <= props@.len(),
            coord_index(props_view(props@), name, props@.len() as int) == coord_index(
                props_view(props@),
                name,
                k as int,
            ),
        decreases k,
    {
        let p = &props[k - 1];
        let float = match p.typ {
            PropType::Scalar(ScalarType::Float32) => true,
            _ => false,
        };
        if float && word_is(&p.name, name) {
            return Some(k - 1);
        }
        k = k - 1;
    }
    None
}

/// The vertices on the next `n` lines. Each line must hold `width` words;
/// those at `xi`, `yi` and `zi` are the coordinates.
pub open spec fn vertices_rest(
    lines: Seq<Seq<Seq<u8>>>,
    at: int,
    n: int,
    width: int,
    xi: int,
    yi: int,
    zi: int,
    acc: Seq<VertexView>,
) -> Result<(Seq<VertexView>, int), LoadError>
    decreases n,
{
    if n <= 0 {
        Ok((acc, at))
    } else {
        let line = line_at(lines, at);
        let next = step(lines, at);
        if line.len() != width {
            Err(LoadError::Parse(next as usize, Problem::WrongWidth(width as usize)))
        } else {
            vertices_rest(
                lines,
                next,
                n - 1,
                width,
                xi,
                yi,
                zi,
                acc.push(
                    VertexView { line: next as usize, x: line[xi], y: line[yi], z: line[zi] },
                ),
            )
        }
    }
}

/// The `size` vertices that follow `at` lines, for vertices with the
/// properties `props`: one line each, with one word for each property.
pub open spec fn spec_parse_vertices(
    lines: Seq<Seq<Seq<u8>>>,
    at: int,
    size: int,
    props: Seq<PropertyView>,
) -> Result<(Seq<VertexView>, int), LoadError> {
    let n = props.len() as int;
    match (coord_index(props, "x", n), coord_index(props, "y", n), coord_index(props, "z", n)) {
        (None, _, _) => Err(LoadError::Parse(at as usize, Problem::NoX)),
        (_, None, _) => Err(LoadError::Parse(at as usize, Problem::NoY)),
        (_, _, None) => Err(LoadError::Parse(at as usize, Problem::NoZ)),
        (Some(xi), Some(yi), Some(zi)) => vertices_rest(
            lines,
            at,
            size,
            n,
            xi,
            yi,
            zi,
            Seq::empty(),
        ),
    }
}

/// Reads `size` vertices with the properties `props`.
pub fn parse_vertices(reader: &mut Reader, size: usize, props: &Vec<Property>) -> (r: Result<
    Vec<Vertex>,
    LoadError,
>)
    requires
        old(reader).wf(),
    ensures
        final(reader).wf(),
        final(reader).buffer == old(reader).buffer,
        match r {
            Ok(v) => spec_parse_vertices(
                old(reader).lines(),
                old(reader).lineno as int,
                size as int,
                props_view(props@),
            ) == Ok::<(Seq<VertexView>, int), LoadError>(
                (vertices_view(v@), final(reader).lineno as int),
            ),
            Err(e) => spec_parse_vertices(
                old(reader).lines(),
                old(reader).lineno as int,
                size as int,
                props_view(props@),
            ) == Err::<(Seq<VertexView>, int), LoadError>(e),
        },
{
    let ghost lines = reader.lines();
    let ghost target = spec_parse_vertices(
        lines,
        reader.lineno as int,
        size as int,
        props_view(props@),
    );
    let width = props.len();
    let xi = match find_coord(props, "x") {
        Some(i) => i,
        None => {
            return Err(LoadError::Parse(reader.lineno, Problem::NoX));
        },
    };
    let yi = match find_coord(props, "y") {
        Some(i) => i,
        None => {
            return Err(LoadError::Parse(reader.lineno, Problem::NoY));
        },
    };
    let zi = match find_coord(props, "z") {
        Some(i) => i,
        None => {
            return Err(LoadError::Parse(reader.lineno, Problem::NoZ));
        },
    };
    let mut vertices: Vec<Vertex> = Vec::new();
    let mut k: usize = 0;
    proof {
        assert(vertices_view(vertices@) =~= Seq::<VertexView>::empty());
    }
    while k < size
        invariant
            k <= size,
            reader.wf(),
            reader.buffer == old(reader).buffer,
            lines == file_lines(reader.buffer@),
            xi < width,
            yi < width,
            zi < width,
            target == spec_parse_vertices(
                old(reader).lines(),
                old(reader).lineno as int,
                size as int,
                props_view(props@),
            ),
            vertices_rest(
                lines,
                reader.lineno as int,
                size - k,
                width as int,
                xi as int,
                yi as int,
                zi as int,
                vertices_view(vertices@),
            ) == target,
        decreases size - k,
    {
        reader.next();
        if reader.current.len() != width {
            return Err(LoadError::Parse(reader.lineno, Problem::WrongWidth(width)));
        }
        let ghost before = vertices_view(vertices@);
        let v = Vertex {
            line: reader.lineno,
            x: copy_word(&reader.current[xi]),
            y: copy_word(&reader.current[yi]),
            z: copy_word(&reader.current[zi]),
        };
        vertices.push(v);
        proof {
            assert(vertices_view(vertices@) =~= before.push(v@));
        }
        k = k + 1;
    }
    Ok(vertices)
}


/// The property lists the corners of a face: a list of `int32`, its
/// length a `uint8`, by the name `vertex_indices` or `vertex_index`.
pub open spec fn is_corner_list(p: PropertyView) -> bool {
    (is_word(p.name, "vertex_indices") || is_word(p.name, "vertex_index")) && p.typ
        == PropType::List(ScalarType::UInt8, ScalarType::Int32)
}

/// The index of the first property at or behind `from` that lists the
/// corners of a face.
pub open spec fn corner_list_index(props: Seq<PropertyView>, from: int) -> Option<int>
    decreases props.len() - from,
{
    if from < 0 || from >= props.len() {
        None
    } else if is_corner_list(props[from]) {
        Some(from)
    } else {
        corner_list_index(props, from + 1)
    }
}

/// The index of the first property that lists the corners of a face.
pub fn find_corner_list(props: &Vec<Property>) -> (r: Option<usize>)
    ensures
        match r {
            Some(i) => corner_list_index(props_view(props@), 0) == Some(i as int) && i
                < props@.len(),
            None => corner_list_index(props_view(props@), 0) is None,
        },
{
    let mut k: usize = 0;
    while k < props.len()
        invariant
            k <= props@.len(),
            corner_list_index(props_view(props@), 0) == corner_list_index(
                props_view(props@),
                k as int,
            ),
        decreases props.len() - k,
    {
        let p = &props[k];
        let list = match p.typ {
            PropType::List(ScalarType::UInt8, ScalarType::Int32) => true,
            _ => false,
        };
        if list && (word_is(&p.name, "vertex_indices") || word_is(&p.name, "vertex_index")) {
            return Some(k);
        }
        k = k + 1;
    }
    None
}

/// The corners that the words `line[from..to]` name, added to `acc`. Each
/// must be a number below `limit`, the number of vertices; the first
/// word that is not decides the error.
pub open spec fn corners(
    line: Seq<Seq<u8>>,
    from: int,
    to: int,
    limit: int,
    acc: Seq<u32>,
) -> Result<Seq<u32>, Problem>
    decreases to - from,
{
    if from >= to {
        Ok(acc)
    } else {
        match parse_unsigned(line[from], u32::MAX as int) {
            None => Err(Problem::BadInteger),
            Some(x) => if x >= limit {
                Err(Problem::BadVertexIndex { index: x as u32, count: limit as usize })
            } else {
                corners(line, from + 1, to, limit, acc.push(x as u32))
            },
        }
    }
}

/// The triangles of the fan over the corners `idx`, from the triangle
/// whose last corner is `idx[i]` on, added to `acc`: each has the first
/// corner of the face and two corners that follow one another.
pub open spec fn fan(idx: Seq<u32>, i: int, acc: Seq<Seq<u32>>) -> Seq<Seq<u32>>
    decreases idx.len() - i,
{
    if i < 2 || i >= idx.len() {
        acc
    } else {
        fan(idx, i + 1, acc.push(seq![idx[0], idx[i - 1], idx[i]]))
    }
}

/// The triangles of the faces on the next `n` lines, added to `acc`. The
/// word at `index` of a line is the number of corners of its face, and the
/// words behind it name the corners.
pub open spec fn faces_rest(
    lines: Seq<Seq<Seq<u8>>>,
    at: int,
    n: int,
    index: int,
    limit: int,
    acc: Seq<Seq<u32>>,
) -> Result<(Seq<Seq<u32>>, int), LoadError>
    decreases n,
{
    if n <= 0 {
        Ok((acc, at))
    } else {
        let line = line_at(lines, at);
        let next = step(lines, at);
        let count = if 0 <= index < line.len() {
            parse_unsigned(line[index], usize::MAX as int)
        } else {
            None
        };
        match count {
            None => Err(LoadError::Parse(next as usize, Problem::BadInteger)),
            Some(c) => if c < 3 || index + c >= line.len() {
                Err(LoadError::Parse(next as usize, Problem::BadVertexCount))
            } else {
                match corners(line, index + 1, index + 1 + c, limit, Seq::empty()) {
                    Err(p) => Err(LoadError::Parse(next as usize, p)),
                    Ok(idx) => faces_rest(lines, next, n - 1, index, limit, fan(idx, 2, acc)),
                }
            },
        }
    }
}

/// The triangles of the `size` faces that follow `at` lines, for faces
/// with the properties `props`, in a mesh of `limit` vertices.
pub open spec fn spec_parse_faces(
    lines: Seq<Seq<Seq<u8>>>,
    at: int,
    size: int,
    props: Seq<PropertyView>,
    limit: int,
) -> Result<(Seq<Seq<u32>>, int), LoadError> {
    match corner_list_index(props, 0) {
        None => Err(LoadError::Parse(at as usize, Problem::NoVertexIndices)),
        Some(index) => faces_rest(lines, at, size, index, limit, Seq::empty()),
    }
}

/// Reads the corners that the words `line[from..to]` name.
pub fn parse_corners(line: &Vec<Vec<u8>>, from: usize, to: usize, num_vertices: usize) -> (r:
    Result<Vec<u32>, Problem>)
    requires
        from <= to <= line@.len(),
    ensures
        match r {
            Ok(v) => corners(words_of(line@), from as int, to as int, num_vertices as int, Seq::empty())
                == Ok::<Seq<u32>, Problem>(v@) && v@.len() == to - from,
            Err(p) => corners(
                words_of(line@),
                from as int,
                to as int,
                num_vertices as int,
                Seq::empty(),
            ) == Err::<Seq<u32>, Problem>(p),
        },
{
    let mut indices: Vec<u32> = Vec::new();
    let mut k: usize = from;
    while k < to
        invariant
            from <= k <= to <= line@.len(),
            indices@.len() == k - from,
            corners(words_of(line@), k as int, to as int, num_vertices as int, indices@)
                == corners(
                words_of(line@),
                from as int,
                to as int,
                num_vertices as int,
                Seq::empty(),
            ),
        decreases to - k,
    {
        match parse_number(&line[k], u32::MAX as u64) {
            None => {
                return Err(Problem::BadInteger);
            },
            Some(x) => {
                if x as usize >= num_vertices {
                    return Err(Problem::BadVertexIndex { index: x as u32, count: num_vertices });
                }
                indices.push(x as u32);
            },
        }
        k = k + 1;
    }
    Ok(indices)
}

/// Adds the triangles of the fan over the corners `idx` to `faces`.
pub fn push_fan(idx: &Vec<u32>, faces: &mut Vec<[u32; 3]>)
    ensures
        faces_view(final(faces)@) == fan(idx@, 2, faces_view(old(faces)@)),
{
    let mut i: usize = 2;
    while i < idx.len()
        invariant
            2 <= i,
            fan(idx@, i as int, faces_view(faces@)) == fan(idx@, 2, faces_view(old(faces)@)),
        decreases idx.len() - i,
    {
        let ghost before = faces_view(faces@);
        let face: [u32; 3] = [idx[0], idx[i - 1], idx[i]];
        faces.push(face);
        proof {
            assert(face@ =~= seq![idx@[0], idx@[i - 1], idx@[i as int]]);
            assert(faces_view(faces@) =~= before.push(face@));
        }
        i = i + 1;
    }
}

/// Reads `size` faces with the properties `props`, and cuts each into
/// triangles.
pub fn parse_faces(
    reader: &mut Reader,
    size: usize,
    props: &Vec<Property>,
    num_vertices: usize,
) -> (r: Result<Vec<[u32; 3]>, LoadError>)
    requires
        old(reader).wf(),
    ensures
        final(reader).wf(),
        final(reader).buffer == old(reader).buffer,
        match r {
            Ok(v) => spec_parse_faces(
                old(reader).lines(),
                old(reader).lineno as int,
                size as int,
                props_view(props@),
                num_vertices as int,
            ) == Ok::<(Seq<Seq<u32>>, int), LoadError>(
                (faces_view(v@), final(reader).lineno as int),
            ),
            Err(e) => spec_parse_faces(
                old(reader).lines(),
                old(reader).lineno as int,
                size as int,
                props_view(props@),
                num_vertices as int,
            ) == Err::<(Seq<Seq<u32>>, int), LoadError>(e),
        },
{
    let ghost lines = reader.lines();
    let ghost target = spec_parse_faces(
        lines,
        reader.lineno as int,
        size as int,
        props_view(props@),
        num_vertices as int,
    );
    let index = match find_corner_list(props) {
        Some(i) => i,
        None => {
            return Err(LoadError::Parse(reader.lineno, Problem::NoVertexIndices));
        },
    };
    let mut faces: Vec<[u32; 3]> = Vec::new();
    let mut k: usize = 0;
    proof {
        assert(faces_view(faces@) =~= Seq::<Seq<u32>>::empty());
    }
    while k < size
        invariant
            k <= size,
            reader.wf(),
            reader.buffer == old(reader).buffer,
            lines == file_lines(reader.buffer@),
            target == spec_parse_faces(
                old(reader).lines(),
                old(reader).lineno as int,
                size as int,
                props_view(props@),
                num_vertices as int,
            ),
            faces_rest(
                lines,
                reader.lineno as int,
                size - k,
                index as int,
                num_vertices as int,
                faces_view(faces@),
            ) == target,
        decreases size - k,
    {
        reader.next();
        let width = reader.current.len();
        let count = if index < width {
            parse_number(&reader.current[index], usize::MAX as u64)
        } else {
            None
        };
        let n: usize = match count {
            Some(c) => c as usize,
            None => {
                return Err(LoadError::Parse(reader.lineno, Problem::BadInteger));
            },
        };
        if n < 3 || index >= width || n >= width - index {
            return Err(LoadError::Parse(reader.lineno, Problem::BadVertexCount));
        }
        match parse_corners(&reader.current, index + 1, index + 1 + n, num_vertices) {
            Err(p) => {
                return Err(LoadError::Parse(reader.lineno, p));
            },
            Ok(indices) => {
                push_fan(&indices, &mut faces);
            },
        }
        k = k + 1;
    }
    Ok(faces)
}

/// What the body of a file holds: the vertices and the triangles.
#[derive(Debug, Clone, PartialEq, Eq)]
pub struct PlyData {
    pub vertices: Vec<Vertex>,
    pub faces: Vec<[u32; 3]>,
}

/// The body of the file, from element `k` on: the lines of the `vertex`
/// elements are vertices and those of the `face` elements are faces,
/// whose corners must be among the vertices read before them. Elements
/// of other names take up no lines.
pub open spec fn body_rest(
    lines: Seq<Seq<Seq<u8>>>,
    at: int,
    elements: Seq<ElementView>,
    k: int,
    vertices: Seq<VertexView>,
    faces: Seq<Seq<u32>>,
) -> Result<(Seq<VertexView>, Seq<Seq<u32>>), LoadError>
    decreases elements.len() - k,
{
    if k < 0 || k >= elements.len() {
        Ok((vertices, faces))
    } else if is_word(elements[k].name, "vertex") {
        match spec_parse_vertices(lines, at, elements[k].count as int, elements[k].props) {
            Err(e) => Err(e),
            Ok((more, next)) => body_rest(lines, next, elements, k + 1, vertices + more, faces),
        }
    } else if is_word(elements[k].name, "face") {
        match spec_parse_faces(
            lines,
            at,
            elements[k].count as int,
            elements[k].props,
            vertices.len() as int,
        ) {
            Err(e) => Err(e),
            Ok((more, next)) => body_rest(lines, next, elements, k + 1, vertices, faces + more),
        }
    } else {
        body_rest(lines, at, elements, k + 1, vertices, faces)
    }
}

/// The mesh that the file `buf` holds: its header, then its body.
pub open spec fn spec_parse_ply(buf: Seq<u8>) -> Result<
    (Seq<VertexView>, Seq<Seq<u32>>),
    LoadError,
> {
    match spec_parse_header(file_lines(buf), 0) {
        Err(e) => Err(e),
        Ok((elements, at)) => body_rest(
            file_lines(buf),
            at,
            elements,
            0,
            Seq::empty(),
            Seq::empty(),
        ),
    }
}

/// Reads a mesh from the bytes of a PLY file.
pub fn parse_ply(buffer: &[u8]) -> (r: Result<PlyData, LoadError>)
    ensures
        match r {
            Ok(d) => spec_parse_ply(buffer@) == Ok::<(Seq<VertexView>, Seq<Seq<u32>>), LoadError>(
                (vertices_view(d.vertices@), faces_view(d.faces@)),
            ),
            Err(e) => spec_parse_ply(buffer@) == Err::<(Seq<VertexView>, Seq<Seq<u32>>), LoadError>(
                e,
            ),
        },
{
    let mut reader = Reader::new(buffer);
    let elements = match parse_header(&mut reader) {
        Ok(elements) => elements,
        Err(e) => {
            return Err(e);
        },
    };
    let ghost lines = file_lines(buffer@);
    let mut vertices: Vec<Vertex> = Vec::new();
    let mut faces: Vec<[u32; 3]> = Vec::new();
    let mut k: usize = 0;
    proof {
        assert(vertices_view(vertices@) =~= Seq::<VertexView>::empty());
        assert(faces_view(faces@) =~= Seq::<Seq<u32>>::empty());
    }
    while k < elements.len()
        invariant
            k <= elements@.len(),
            reader.wf(),
            reader.buffer == buffer,
            lines == file_lines(buffer@),
            spec_parse_ply(buffer@) == body_rest(
                lines,
                reader.lineno as int,
                elements_view(elements@),
                k as int,
                vertices_view(vertices@),
                faces_view(faces@),
            ),
        decreases elements.len() - k,
    {
        let e = &elements[k];
        let ghost before_v = vertices_view(vertices@);
        let ghost before_f = faces_view(faces@);
        if word_is(&e.name, "vertex") {
            match parse_vertices(&mut reader, e.count, &e.props) {
                Err(err) => {
                    return Err(err);
                },
                Ok(more) => {
                    let mut more = more;
                    let ghost added = vertices_view(more@);
                    vertices.append(&mut more);
                    proof {
                        assert(vertices_view(vertices@) =~= before_v + added);
                    }
                },
            }
        } else if word_is(&e.name, "face") {
            match parse_faces(&mut reader, e.count, &e.props, vertices.len()) {
                Err(err) => {
                    return Err(err);
                },
                Ok(more) => {
                    let mut more = more;
                    let ghost added = faces_view(more@);
                    faces.append(&mut more);
                    proof {
                        assert(faces_view(faces@) =~= before_f + added);
                    }
                },
            }
        }
        k = k + 1;
    }
    Ok(PlyData { vertices, faces })
}

} // verus!
