//! The text of a page, read off its drawing instructions.
//!
//! Of the instructions only four matter. `Tf` chooses the font, and with it
//! the encoding of what follows. `Tj` and `TJ` show text. `ET` ends a block
//! of text.

use crate::model::{Id, NodeView, OperationView};
use crate::pdf::{
    as_array, as_i64, as_name, as_str, decode_text, decoded_text, document_model, get_pages,
    object_model, page_order,
};
use crate::text::{chars_of, string_of};
use vstd::prelude::*;
use vstd::string::StringExecFns;

verus! {

/// Why a page gives no text.
#[derive(Clone, Copy, PartialEq, Eq, Structural, Debug)]
pub enum TextError {
    /// The document has no page of this number.
    PageNumberNotFound(u32),
    /// A `Tf` has no operand.
    MissingFontOperand,
    /// The first operand of a `Tf` is no name.
    FontOperandNotName,
}

/// The identifier of the page with the number `page_number`, where pages
/// are numbered from one in page order.
pub fn page_at(doc: &lopdf::Document, page_number: u32) -> (r: Result<Id, TextError>)
    ensures
        match r {
            Ok(id) => 1 <= page_number <= page_order(document_model(*doc)).len() && id
                == page_order(document_model(*doc))[page_number - 1],
            Err(e) => e == TextError::PageNumberNotFound(page_number) && !(1 <= page_number
                <= page_order(document_model(*doc)).len()),
        },
{
    let ids = get_pages(doc);
    if 1 <= page_number && page_number as usize <= ids.len() {
        Ok(ids[page_number as usize - 1])
    } else {
        Err(TextError::PageNumberNotFound(page_number))
    }
}

/// The values of a list of objects.
pub open spec fn objects_view(objects: Seq<lopdf::Object>) -> Seq<NodeView> {
    objects.map_values(|o: lopdf::Object| object_model(o))
}

/// The value of an instruction.
pub open spec fn operation_view(operation: (String, Vec<lopdf::Object>)) -> OperationView {
    OperationView { operator: operation.0@, operands: objects_view(operation.1@) }
}

/// The values of a list of instructions.
pub open spec fn operations_view(operations: Seq<(String, Vec<lopdf::Object>)>) -> Seq<
    OperationView,
> {
    operations.map_values(|op: (String, Vec<lopdf::Object>)| operation_view(op))
}

/// The values of a list of fonts with their encodings.
pub open spec fn encodings_view(encodings: Seq<(Vec<u8>, String)>) -> Seq<(Seq<u8>, Seq<char>)> {
    encodings.map_values(|e: (Vec<u8>, String)| (e.0@, e.1@))
}

/// The text that one operand shows: a text string shows its bytes, decoded;
/// an array shows what its items show, and a space behind them; an integer
/// below -100 shows a space; everything else shows nothing.
pub open spec fn shown_by(encoding: Option<Seq<char>>, operand: NodeView) -> Seq<char>
    decreases operand,
{
    match operand {
        NodeView::Text(bytes, _) => decoded_text(encoding, bytes),
        NodeView::Array(items) => shown(encoding, items).push(' '),
        NodeView::Integer(value) => if value < -100 {
            seq![' ']
        } else {
            Seq::empty()
        },
        _ => Seq::empty(),
    }
}

/// The text that operands show, one behind the other.
pub open spec fn shown(encoding: Option<Seq<char>>, operands: Seq<NodeView>) -> Seq<char>
    decreases operands,
{
    if operands.len() == 0 {
        Seq::empty()
    } else {
        shown(encoding, operands.drop_last()) + shown_by(encoding, operands.last())
    }
}

/// The encoding of the font `font`: that of the first font of that name in
/// `encodings`, if there is one.
pub open spec fn encoding_of(encodings: Seq<(Seq<u8>, Seq<char>)>, font: Seq<u8>) -> Option<
    Seq<char>,
>
    decreases encodings.len(),
{
    if encodings.len() == 0 {
        None
    } else if encodings[0].0 == font {
        Some(encodings[0].1)
    } else {
        encoding_of(encodings.drop_first(), font)
    }
}

/// How far the reading of a page has come: the text so far, and the encoding
/// of the font that was chosen last.
pub struct Progress {
    pub text: Seq<char>,
    pub encoding: Option<Seq<char>>,
}

/// Whether a text ends in a line feed.
pub open spec fn ends_line(text: Seq<char>) -> bool {
    text.len() > 0 && text.last() == '\n'
}

/// The progress behind one instruction.
pub open spec fn after(
    operation: OperationView,
    before: Progress,
    encodings: Seq<(Seq<u8>, Seq<char>)>,
    insert_newlines: bool,
) -> Result<Progress, TextError> {
    if operation.operator == "Tf"@ {
        if operation.operands.len() == 0 {
            Err(TextError::MissingFontOperand)
        } else {
            match operation.operands[0] {
                NodeView::Name(font) => Ok(
                    Progress { encoding: encoding_of(encodings, font), ..before },
                ),
                _ => Err(TextError::FontOperandNotName),
            }
        }
    } else if operation.operator == "Tj"@ || operation.operator == "TJ"@ {
        Ok(Progress { text: before.text + shown(before.encoding, operation.operands), ..before })
    } else if operation.operator == "ET"@ {
        if insert_newlines && !ends_line(before.text) {
            Ok(Progress { text: before.text.push('\n'), ..before })
        } else {
            Ok(before)
        }
    } else {
        Ok(before)
    }
}

/// The progress behind a list of instructions, or the error of the first
/// instruction that has one.
pub open spec fn after_all(
    operations: Seq<OperationView>,
    start: Progress,
    encodings: Seq<(Seq<u8>, Seq<char>)>,
    insert_newlines: bool,
) -> Result<Progress, TextError>
    decreases operations.len(),
{
    if operations.len() == 0 {
        Ok(start)
    } else {
        match after_all(operations.drop_last(), start, encodings, insert_newlines) {
            Ok(before) => after(operations.last(), before, encodings, insert_newlines),
            Err(e) => Err(e),
        }
    }
}

/// The text `text` with the text of a page behind it: the page has the
/// instructions `operations`, and its fonts have the encodings `encodings`.
pub open spec fn with_page_text(
    text: Seq<char>,
    encodings: Seq<(Seq<u8>, Seq<char>)>,
    operations: Seq<OperationView>,
    insert_newlines: bool,
) -> Result<Seq<char>, TextError> {
    match after_all(operations, Progress { text, encoding: None }, encodings, insert_newlines) {
        Ok(end) => Ok(end.text),
        Err(e) => Err(e),
    }
}

/// Appends to `text` what `operands` show.
fn collect_text(text: &mut Vec<char>, encoding: &Option<String>, operands: &Vec<lopdf::Object>)
    ensures
        final(text)@ == old(text)@ + shown(
            match encoding {
                Some(e) => Some(e@),
                None => None,
            },
            objects_view(operands@),
        ),
    decreases objects_view(operands@),
{
    let ghost chosen = match encoding {
        Some(e) => Some(e@),
        None => None,
    };
    let ghost views = objects_view(operands@);
    let ghost start = text@;
    let mut i: usize = 0;
    assert(views.take(0) =~= Seq::empty());
    assert(start + Seq::<char>::empty() =~= start);
    while i < operands.len()
        invariant
            i <= operands.len(),
            views == objects_view(operands@),
            chosen == match encoding {
                Some(e) => Some(e@),
                None => None,
            },
            text@ == start + shown(chosen, views.take(i as int)),
        decreases operands.len() - i,
    {
        let operand = &operands[i];
        let ghost before = text@;
        proof {
            assert(views.take(i + 1).drop_last() =~= views.take(i as int));
            assert(views.take(i + 1).last() == object_model(*operand));
            assert(views[i as int] == object_model(*operand));
        }
        if let Some(bytes) = as_str(operand) {
            let decoded = match encoding {
                Some(e) => decode_text(Some(e.as_str()), bytes),
                None => decode_text(None, bytes),
            };
            let mut piece = chars_of(decoded.as_str());
            text.append(&mut piece);
        } else if let Some(items) = as_array(operand) {
            proof {
                assert(decreases_to!(views => views[i as int]));
                assert(views[i as int]->Array_0 == objects_view(items@));
                assert(decreases_to!(views[i as int] => views[i as int]->Array_0));
            }
            collect_text(text, encoding, items);
            text.push(' ');
        } else if let Some(value) = as_i64(operand) {
            if value < -100 {
                text.push(' ');
            }
        }
        proof {
            assert(text@ =~= before + shown_by(chosen, object_model(*operand)));
            assert(text@ =~= start + shown(chosen, views.take(i + 1)));
        }
        i += 1;
    }
    assert(views.take(operands@.len() as int) =~= views);
}

/// The encoding of the font `font`, if `encodings` lists it.
fn find_encoding(encodings: &Vec<(Vec<u8>, String)>, font: &[u8]) -> (found: Option<String>)
    ensures
        match found {
            Some(e) => encoding_of(encodings_view(encodings@), font@) == Some(e@),
            None => encoding_of(encodings_view(encodings@), font@).is_none(),
        },
{
    let ghost views = encodings_view(encodings@);
    let mut i: usize = 0;
    assert(views.skip(0) =~= views);
    while i < encodings.len()
        invariant
            i <= encodings.len(),
            views == encodings_view(encodings@),
            encoding_of(views, font@) == encoding_of(views.skip(i as int), font@),
        decreases encodings.len() - i,
    {
        let candidate = &encodings[i];
        proof {
            assert(views.skip(i as int)[0] == (candidate.0@, candidate.1@));
            assert(views.skip(i as int).drop_first() =~= views.skip(i + 1));
        }
        if same_bytes(candidate.0.as_slice(), font) {
            return Some(candidate.1.clone());
        }
        i += 1;
    }
    None
}

/// Whether two lists of bytes are the same.
fn same_bytes(a: &[u8], b: &[u8]) -> (same: bool)
    ensures
        same == (a@ == b@),
{
    if a.len() != b.len() {
        return false;
    }
    let mut i: usize = 0;
    while i < a.len()
        invariant
            i <= a.len(),
            a.len() == b.len(),
            forall|j: int| 0 <= j < i ==> a@[j] == b@[j],
        decreases a.len() - i,
    {
        if a[i] != b[i] {
            return false;
        }
        i += 1;
    }
    assert(a@ =~= b@);
    true
}

/// Whether `operator` is the operator `known`.
fn is_operator(operator: &String, known: &str) -> (same: bool)
    ensures
        same == (operator@ == known@),
{
    *operator == String::from_str(known)
}

/// Appends to `text` the text of a page, read off its instructions
/// `operations` with the encodings `encodings` of its fonts. A `Tf` chooses
/// the encoding of the font that its first operand names, or none where
/// `encodings` lacks the font. `Tj` and `TJ` append what their operands
/// show in the encoding chosen last. With `insert_newlines`, an `ET` appends
/// a line feed unless the text ends in one. Fails at the first `Tf` without
/// an operand, or whose first operand is no name.
pub fn append_page_text(
    text: String,
    encodings: &Vec<(Vec<u8>, String)>,
    operations: &Vec<(String, Vec<lopdf::Object>)>,
    insert_newlines: bool,
) -> (r: Result<String, TextError>)
    ensures
        match r {
            Ok(whole) => with_page_text(
                text@,
                encodings_view(encodings@),
                operations_view(operations@),
                insert_newlines,
            ) == Ok::<Seq<char>, TextError>(whole@),
            Err(e) => with_page_text(
                text@,
                encodings_view(encodings@),
                operations_view(operations@),
                insert_newlines,
            ) == Err::<Seq<char>, TextError>(e),
        },
{
    let mut chars = chars_of(text.as_str());
    let mut encoding: Option<String> = None;
    let ghost views = operations_view(operations@);
    let ghost fonts = encodings_view(encodings@);
    let ghost start = Progress { text: text@, encoding: None };
    let mut i: usize = 0;
    assert(views.take(0) =~= Seq::empty());
    while i < operations.len()
        invariant
            i <= operations.len(),
            views == operations_view(operations@),
            fonts == encodings_view(encodings@),
            start == (Progress { text: text@, encoding: None }),
            after_all(views.take(i as int), start, fonts, insert_newlines) == Ok::<
                Progress,
                TextError,
            >(
                Progress {
                    text: chars@,
                    encoding: match encoding {
                        Some(e) => Some(e@),
                        None => None,
                    },
                },
            ),
        decreases operations.len() - i,
    {
        let operator = &operations[i].0;
        let operands = &operations[i].1;
        proof {
            assert(views.take(i + 1).drop_last() =~= views.take(i as int));
            assert(views.take(i + 1).last() == operation_view(operations@[i as int]));
            reveal_strlit("Tf");
            reveal_strlit("Tj");
            reveal_strlit("TJ");
            reveal_strlit("ET");
        }
        if is_operator(operator, "Tf") {
            if operands.len() == 0 {
                proof {
                    lemma_error_stays(views, i + 1, start, fonts, insert_newlines);
                }
                return Err(TextError::MissingFontOperand);
            }
            match as_name(&operands[0]) {
                Some(font) => {
                    encoding = find_encoding(encodings, font);
                },
                None => {
                    proof {
                        lemma_error_stays(views, i + 1, start, fonts, insert_newlines);
                    }
                    return Err(TextError::FontOperandNotName);
                },
            }
        } else if is_operator(operator, "Tj") || is_operator(operator, "TJ") {
            collect_text(&mut chars, &encoding, operands);
        } else if is_operator(operator, "ET") {
            let ends = chars.len() > 0 && chars[chars.len() - 1] == '\n';
            if insert_newlines && !ends {
                chars.push('\n');
            }
        }
        i += 1;
    }
    assert(views.take(operations@.len() as int) =~= views);
    Ok(string_of(chars))
}

/// An error at one instruction is the error of every longer list.
proof fn lemma_error_stays(
    operations: Seq<OperationView>,
    n: int,
    start: Progress,
    encodings: Seq<(Seq<u8>, Seq<char>)>,
    insert_newlines: bool,
)
    requires
        0 <= n <= operations.len(),
        after_all(operations.take(n), start, encodings, insert_newlines) is Err,
    ensures
        after_all(operations, start, encodings, insert_newlines) == after_all(
            operations.take(n),
            start,
            encodings,
            insert_newlines,
        ),
    decreases operations.len() - n,
{
    if n < operations.len() {
        assert(operations.take(n + 1).drop_last() =~= operations.take(n));
        lemma_error_stays(operations, n + 1, start, encodings, insert_newlines);
    } else {
        assert(operations.take(n) =~= operations);
    }
}

} // verus!
