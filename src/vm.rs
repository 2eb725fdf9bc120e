//! Statements: parsing a line, and running an insert, a select or a meta-command.

use crate::btree::{
    content, find_spec, leaf_at, leaf_index, leaf_order, lemma_cell_in_content, lemma_find_complete,
    lemma_find_unique, lemma_leaf_index, lemma_order_facts, row_keys, insert_shape,
    insert_step,
};
use crate::node::leaf::LEAF_NODE_MAX_CELLS;
use crate::layout::push_bytes;
use crate::node::Node;
use crate::repl::{constants_text, print_constants, print_tree, tree_text};
use crate::serialization::{deserialize_row, row_bytes, row_decode, row_fits, Row, EMAIL_SIZE, USERNAME_SIZE};
use crate::table::{cursor_index, cursor_valid, split_room, ExecuteError, Table};
use vstd::prelude::*;
use vstd::string::StringSliceAdditionalSpecFns;

verus! {

/// A statement of the table's language.
#[derive(Debug)]
pub enum Statement {
    Insert(Row),
    Select,
}

/// Why a line is not a statement.
#[derive(Debug, Clone, Copy, PartialEq, Eq, Structural)]
pub enum PrepareError {
    NegativeId,
    StringTooLong,
    SyntaxError,
    UnrecognizedStatement,
}

/// ASCII space, which separates the fields of a statement.
pub const SEPARATOR: u8 = 32;
pub const MINUS: u8 = 45;
pub const PLUS: u8 = 43;
pub const DIGIT_ZERO: u8 = 48;
pub const DIGIT_NINE: u8 = 57;
/// Largest value an id may be written with: `i32::MAX`.
pub const ID_MAX: u64 = 2147483647;

/// `insert`, in ASCII.
pub open spec fn insert_word() -> Seq<u8> {
    seq![105u8, 110u8, 115u8, 101u8, 114u8, 116u8]
}

/// `select`, in ASCII.
pub open spec fn select_word() -> Seq<u8> {
    seq![115u8, 101u8, 108u8, 101u8, 99u8, 116u8]
}

/// The pieces of `s` between separators, empty pieces included.
pub open spec fn fields(s: Seq<u8>) -> Seq<Seq<u8>>
    decreases s.len(),
{
    if s.len() == 0 {
        seq![Seq::empty()]
    } else {
        let f = fields(s.drop_last());
        if s.last() == SEPARATOR {
            f.push(Seq::empty())
        } else {
            f.update(f.len() - 1, f.last().push(s.last()))
        }
    }
}

pub proof fn lemma_fields_nonempty(s: Seq<u8>)
    ensures
        fields(s).len() >= 1,
    decreases s.len(),
{
    if s.len() > 0 {
        lemma_fields_nonempty(s.drop_last());
    }
}

pub open spec fn is_digit(b: u8) -> bool {
    DIGIT_ZERO <= b <= DIGIT_NINE
}

/// The value of a string of decimal digits.
pub open spec fn digits_value(d: Seq<u8>) -> nat
    decreases d.len(),
{
    if d.len() == 0 {
        0
    } else {
        digits_value(d.drop_last()) * 10 + (d.last() - DIGIT_ZERO) as nat
    }
}

/// What follows an optional sign.
pub open spec fn id_digits(s: Seq<u8>) -> Seq<u8> {
    if s.len() > 0 && (s[0] == MINUS || s[0] == PLUS) {
        s.subrange(1, s.len() as int)
    } else {
        s
    }
}

pub open spec fn all_digits(d: Seq<u8>) -> bool {
    forall|i: int| 0 <= i < d.len() ==> is_digit(#[trigger] d[i])
}

/// A decimal `i32` as Rust writes one: an optional sign, then one or more digits, within range.
pub open spec fn parse_i32(s: Seq<u8>) -> Option<int> {
    let neg = s.len() > 0 && s[0] == MINUS;
    let digits = id_digits(s);
    if digits.len() == 0 || !all_digits(digits) {
        None
    } else {
        let v: int = if neg {
            -digits_value(digits)
        } else {
            digits_value(digits) as int
        };
        if -2147483648 <= v <= 2147483647 {
            Some(v)
        } else {
            None
        }
    }
}

/// What `insert <id> <username> <email>` gives: the row, or why there is none.
pub open spec fn insert_spec(s: Seq<u8>) -> Result<(u32, Seq<u8>, Seq<u8>), PrepareError> {
    let f = fields(s);
    if f.len() < 4 {
        Err(PrepareError::SyntaxError)
    } else {
        match parse_i32(f[1]) {
            None => Err(PrepareError::SyntaxError),
            Some(v) => if v < 0 {
                Err(PrepareError::NegativeId)
            } else if f[2].len() > USERNAME_SIZE || f[3].len() > EMAIL_SIZE {
                Err(PrepareError::StringTooLong)
            } else {
                Ok((v as u32, f[2], f[3]))
            },
        }
    }
}

pub open spec fn starts_with_insert(s: Seq<u8>) -> bool {
    s.len() >= 6 && s.subrange(0, 6) == insert_word()
}

/// Splits `s` at each separator.
fn split_fields(s: &[u8]) -> (r: Vec<Vec<u8>>)
    ensures
        r@.len() == fields(s@).len(),
        forall|i: int| 0 <= i < r@.len() ==> (#[trigger] r@[i])@ == fields(s@)[i],
{
    let mut r: Vec<Vec<u8>> = Vec::new();
    r.push(Vec::new());
    let mut i: usize = 0;
    proof {
        assert(s@.subrange(0, 0) =~= Seq::<u8>::empty());
    }
    while i < s.len()
        invariant
            0 <= i <= s@.len(),
            r@.len() == fields(s@.subrange(0, i as int)).len(),
            r@.len() >= 1,
            forall|k: int| 0 <= k < r@.len() ==> (#[trigger] r@[k])@ == fields(s@.subrange(0, i as int))[k],
        decreases s@.len() - i,
    {
        let ghost prev = r@;
        let b = s[i];
        assert(s@.subrange(0, i + 1).drop_last() =~= s@.subrange(0, i as int));
        if b == SEPARATOR {
            r.push(Vec::new());
        } else {
            let last = r.len() - 1;
            let mut piece = Vec::new();
            std::mem::swap(&mut piece, &mut r[last]);
            piece.push(b);
            r.set(last, piece);
        }
        i = i + 1;
        proof {
            let f = fields(s@.subrange(0, i as int));
            assert forall|k: int| 0 <= k < r@.len() implies (#[trigger] r@[k])@ == f[k] by {
                if k < prev.len() && k != prev.len() - 1 {
                    assert(r@[k] == prev[k]);
                }
            }
        }
    }
    assert(s@.subrange(0, s@.len() as int) =~= s@);
    r
}

/// Reads a decimal `i32`; none where `s` is not one.
fn parse_id(s: &[u8]) -> (r: Option<i64>)
    ensures
        match r {
            Some(v) => parse_i32(s@) == Some(v as int),
            None => parse_i32(s@) is None,
        },
{
    let n = s.len();
    let mut start: usize = 0;
    let mut neg = false;
    if n > 0 && s[0] == MINUS {
        neg = true;
        start = 1;
    } else if n > 0 && s[0] == PLUS {
        start = 1;
    }
    let ghost digits = s@.subrange(start as int, n as int);
    proof {
        if start == 0 {
            assert(digits =~= s@);
        }
    }
    if start == n {
        return None;
    }
    // The value so far, held only while it is at most one past the largest id.
    let mut value: u64 = 0;
    let mut too_large = false;
    let mut i: usize = start;
    while i < n
        invariant
            start <= i <= n == s@.len(),
            digits == s@.subrange(start as int, n as int),
            digits == id_digits(s@),
            neg == (s@.len() > 0 && s@[0] == MINUS),
            forall|k: int| start <= k < i ==> is_digit(#[trigger] s@[k]),
            !too_large ==> value == digits_value(s@.subrange(start as int, i as int)),
            too_large ==> digits_value(s@.subrange(start as int, i as int)) > ID_MAX + 1,
            value <= ID_MAX + 1,
        decreases n - i,
    {
        let b = s[i];
        if b < DIGIT_ZERO || b > DIGIT_NINE {
            proof {
                assert(!is_digit(digits[i - start]));
                assert(!all_digits(digits));
            }
            return None;
        }
        let ghost prev = s@.subrange(start as int, i as int);
        assert(s@.subrange(start as int, i + 1).drop_last() =~= prev);
        if !too_large {
            let next = value * 10 + (b - DIGIT_ZERO) as u64;
            if next > ID_MAX + 1 {
                too_large = true;
            } else {
                value = next;
            }
        } else {
            assert(digits_value(s@.subrange(start as int, i + 1)) >= digits_value(prev) * 10);
        }
        i = i + 1;
    }
    proof {
        assert(s@.subrange(start as int, n as int) =~= digits);
        assert(digits == id_digits(s@));
        assert forall|k: int| 0 <= k < digits.len() implies is_digit(#[trigger] digits[k]) by {
            assert(digits[k] == s@[start + k]);
        }
        if start == 0 {
            assert(digits =~= s@);
        }
    }
    if too_large {
        return None;
    }
    let v: i64 = if neg {
        -(value as i64)
    } else {
        value as i64
    };
    if v < -2147483648 || v > 2147483647 {
        return None;
    }
    Some(v)
}

/// Reads `insert <id> <username> <email>`.
fn prepare_insert(input: &[u8]) -> (r: Result<Statement, PrepareError>)
    ensures
        match r {
            Ok(Statement::Insert(row)) => insert_spec(input@) == Ok::<_, PrepareError>((row.id, row.username@, row.email@)),
            Ok(Statement::Select) => false,
            Err(e) => insert_spec(input@) == Err::<(u32, Seq<u8>, Seq<u8>), _>(e),
        },
{
    let pieces = split_fields(input);
    if pieces.len() < 4 {
        return Err(PrepareError::SyntaxError);
    }
    let id = match parse_id(pieces[1].as_slice()) {
        Some(v) => v,
        None => {
            return Err(PrepareError::SyntaxError);
        },
    };
    if id < 0 {
        return Err(PrepareError::NegativeId);
    }
    if pieces[2].len() > USERNAME_SIZE || pieces[3].len() > EMAIL_SIZE {
        return Err(PrepareError::StringTooLong);
    }
    // Fields after the email are ignored.
    let mut pieces = pieces;
    let mut username: Vec<u8> = Vec::new();
    let mut email: Vec<u8> = Vec::new();
    std::mem::swap(&mut username, &mut pieces[2]);
    std::mem::swap(&mut email, &mut pieces[3]);
    Ok(Statement::Insert(Row { id: id as u32, username, email }))
}

impl Statement {
    /// Reads a statement: `insert <id> <username> <email>` (any line starting with `insert`)
    /// or `select`.
    pub fn try_from(input: &str) -> (r: Result<Statement, PrepareError>)
        ensures
            match r {
                Ok(Statement::Insert(row)) => starts_with_insert(input.spec_bytes())
                    && insert_spec(input.spec_bytes()) == Ok::<_, PrepareError>((row.id, row.username@, row.email@)),
                Ok(Statement::Select) => !starts_with_insert(input.spec_bytes())
                    && input.spec_bytes() == select_word(),
                Err(e) => if starts_with_insert(input.spec_bytes()) {
                    insert_spec(input.spec_bytes()) == Err::<(u32, Seq<u8>, Seq<u8>), _>(e)
                } else {
                    input.spec_bytes() != select_word() && e == PrepareError::UnrecognizedStatement
                },
            },
    {
        let b = input.as_bytes();
        let is_insert = b.len() >= 6 && b[0] == 105 && b[1] == 110 && b[2] == 115 && b[3] == 101
            && b[4] == 114 && b[5] == 116;
        proof {
            if b@.len() >= 6 {
                assert(is_insert == (b@.subrange(0, 6) =~= insert_word()));
            }
        }
        if is_insert {
            prepare_insert(b)
        } else if b.len() == 6 && b[0] == 115 && b[1] == 101 && b[2] == 108 && b[3] == 101 && b[4]
            == 99 && b[5] == 116 {
            assert(b@ =~= select_word());
            Ok(Statement::Select)
        } else {
            assert(b@ != select_word());
            Err(PrepareError::UnrecognizedStatement)
        }
    }
}

} // verus!

verus! {

/// The leaf where `key` belongs has a free cell, or the tree has room to split it.
pub open spec fn insert_has_room(pages: Seq<Node>, key: u32) -> bool {
    forall|j: int, c: int|
        find_spec(pages, key, j, c) ==> leaf_at(pages, leaf_order(pages)[j] as int).cells@.len()
            < LEAF_NODE_MAX_CELLS || split_room(pages)
}

/// Inserts `row` under its id: a duplicate id is refused, a table without room is full, and
/// otherwise the row goes in at its place in key order.
pub fn execute_insert<S>(row: &Row, table: &mut Table<S>) -> (r: Result<(), ExecuteError>)
    requires
        old(table).wf(),
        row_fits(row.username@, row.email@),
    ensures
        final(table).pager.storage == old(table).pager.storage,
        final(table).pager.file_pages == old(table).pager.file_pages,
        old(table).pages().len() <= final(table).pages().len(),
        final(table).wf(),
        (r == Err::<(), ExecuteError>(ExecuteError::DuplicateKey)) == row_keys(old(table).rows()).contains(row.id),
        r is Ok <==> (!row_keys(old(table).rows()).contains(row.id) && insert_has_room(old(table).pages(), row.id)),
        r is Ok ==> exists|pos: int|
            0 <= pos <= old(table).rows().len() && final(table).rows() == old(table).rows().insert(
                pos,
                (row.id, row_bytes(row.id, row.username@, row.email@)),
            ),
        r is Err ==> final(table).pages() == old(table).pages(),
        r != Err::<(), ExecuteError>(ExecuteError::TableFull) ==> insert_step(
            old(table).rows(),
            final(table).rows(),
            row.id,
        ),
        r is Ok ==> forall|j: int, c: int|
            find_spec(old(table).pages(), row.id, j, c) ==> #[trigger] insert_shape(
                old(table).pages(),
                j,
                c,
                row.id,
                row_bytes(row.id, row.username@, row.email@),
                final(table).pages(),
            ),
{
    let ghost pages = table.pages();
    let key_to_insert = row.id;
    let cursor = table.find(key_to_insert);
    let ghost j = choose|j: int|
        find_spec(pages, key_to_insert, j, cursor.cell_num as int) && leaf_order(pages)[j] == cursor.page_num;
    proof {
        lemma_order_facts(pages, j);
    }
    // The cursor always points to a leaf.
    let duplicate = match table.pager.page(cursor.page_num) {
        Node::Leaf(leaf) => cursor.cell_num < leaf.num_cells() && leaf.key(cursor.cell_num)
            == key_to_insert,
        Node::Internal(_) => {
            proof {
                assert(false);
            }
            false
        },
    };
    proof {
        let l = leaf_at(pages, cursor.page_num as int);
        if row_keys(content(pages)).contains(key_to_insert) {
            lemma_find_complete(pages, key_to_insert, j, cursor.cell_num as int);
        }
        if duplicate {
            lemma_cell_in_content(pages, j, cursor.cell_num as int);
            assert(l.keys()[cursor.cell_num as int] == l.cells@[cursor.cell_num as int].key);
        }
        assert forall|j2: int, c2: int| find_spec(pages, key_to_insert, j2, c2) implies j2 == j by {
            lemma_find_unique(pages, key_to_insert, j, cursor.cell_num as int, j2, c2);
        }
    }
    if duplicate {
        return Err(ExecuteError::DuplicateKey);
    }
    let r = table.leaf_node_insert(cursor, key_to_insert, row);
    proof {
        if r is Ok {
            let pos = choose|pos: int|
                0 <= pos <= content(pages).len() && table.rows() == content(pages).insert(
                    pos,
                    (row.id, row_bytes(row.id, row.username@, row.email@)),
                );
            assert(insert_step(content(pages), table.rows(), row.id)) by {
                assert(0 <= pos <= content(pages).len() && table.rows() == content(pages).insert(
                    pos,
                    (row.id, row_bytes(row.id, row.username@, row.email@)),
                ));
            }
        }
    }
    proof {
        if r is Ok {
            assert forall|j2: int, c2: int| find_spec(pages, row.id, j2, c2) implies #[trigger] insert_shape(
                pages,
                j2,
                c2,
                row.id,
                row_bytes(row.id, row.username@, row.email@),
                table.pages(),
            ) by {
                lemma_find_unique(pages, row.id, j, cursor.cell_num as int, j2, c2);
                assert(insert_shape(
                    pages,
                    j,
                    cursor.cell_num as int,
                    row.id,
                    row_bytes(row.id, row.username@, row.email@),
                    table.pages(),
                ));
            }
        }
    }
    r
}

/// Every row of the table, in key order.
pub fn execute_select<S>(table: &Table<S>) -> (r: Vec<Row>)
    requires
        table.wf(),
    ensures
        r@.len() == table.rows().len(),
        forall|i: int|
            0 <= i < r@.len() ==> row_decode(table.rows()[i].1) == Some(
                ((#[trigger] r@[i]).id, r@[i].username@, r@[i].email@),
            ),
        forall|i: int| 0 <= i < r@.len() ==> (#[trigger] r@[i]).id == table.rows()[i].0,
{
    let ghost pages = table.pages();
    let mut rows: Vec<Row> = Vec::new();
    let mut cursor = table.start();
    while !cursor.end_of_table
        invariant
            table.wf(),
            pages == table.pages(),
            cursor_valid(pages, cursor),
            cursor_index(pages, cursor) == rows@.len(),
            rows@.len() <= table.rows().len(),
            cursor.end_of_table ==> rows@.len() == table.rows().len(),
            forall|i: int|
                0 <= i < rows@.len() ==> row_decode(table.rows()[i].1) == Some(
                    ((#[trigger] rows@[i]).id, rows@[i].username@, rows@[i].email@),
                ),
            forall|i: int| 0 <= i < rows@.len() ==> (#[trigger] rows@[i]).id == table.rows()[i].0,
        decreases table.rows().len() - rows@.len(),
    {
        proof {
            let j = leaf_index(pages, cursor.page_num);
            let ord = leaf_order(pages);
            assert(ord.contains(cursor.page_num));
            let j0 = choose|j0: int| 0 <= j0 < ord.len() && ord[j0] == cursor.page_num;
            lemma_leaf_index(pages, j0);
            lemma_cell_in_content(pages, j0, cursor.cell_num as int);
        }
        let value = cursor.value(table);
        match deserialize_row(value) {
            Some(row) => {
                rows.push(row);
            },
            None => {
                proof {
                    assert(false);
                }
            },
        }
        cursor.advance(table);
    }
    rows
}

/// Runs a statement: an insert gives no rows, a select every row in key order.
pub fn execute_statement<S>(statement: &Statement, table: &mut Table<S>) -> (r: Result<Vec<Row>, ExecuteError>)
    requires
        old(table).wf(),
        statement matches Statement::Insert(row) ==> row_fits(row.username@, row.email@),
    ensures
        final(table).pager.storage == old(table).pager.storage,
        final(table).pager.file_pages == old(table).pager.file_pages,
        old(table).pages().len() <= final(table).pages().len(),
        final(table).wf(),
        match statement {
            Statement::Insert(row) => {
                &&& (r == Err::<Vec<Row>, ExecuteError>(ExecuteError::DuplicateKey)) == row_keys(old(table).rows()).contains(row.id)
                &&& r is Ok <==> (!row_keys(old(table).rows()).contains(row.id) && insert_has_room(old(table).pages(), row.id))
                &&& r matches Ok(v) ==> v@.len() == 0 && exists|pos: int|
                    0 <= pos <= old(table).rows().len() && final(table).rows() == old(table).rows().insert(
                        pos,
                        (row.id, row_bytes(row.id, row.username@, row.email@)),
                    )
                &&& r is Err ==> final(table).pages() == old(table).pages()
                &&& r is Ok ==> forall|j: int, c: int|
                    find_spec(old(table).pages(), row.id, j, c) ==> #[trigger] insert_shape(
                        old(table).pages(),
                        j,
                        c,
                        row.id,
                        row_bytes(row.id, row.username@, row.email@),
                        final(table).pages(),
                    )
            },
            Statement::Select => {
                &&& final(table).pages() == old(table).pages()
                &&& r matches Ok(v) && v@.len() == old(table).rows().len() && (forall|i: int|
                    0 <= i < v@.len() ==> row_decode(old(table).rows()[i].1) == Some(
                        ((#[trigger] v@[i]).id, v@[i].username@, v@[i].email@),
                    )) && forall|i: int| 0 <= i < v@.len() ==> (#[trigger] v@[i]).id == old(table).rows()[i].0
            },
        },
{
    match statement {
        Statement::Insert(row) => match execute_insert(row, table) {
            Ok(()) => Ok(Vec::new()),
            Err(e) => Err(e),
        },
        Statement::Select => Ok(execute_select(table)),
    }
}

} // verus!

verus! {

/// Why a line starting with `.` is not a meta-command.
#[derive(Debug, Clone, Copy, PartialEq, Eq, Structural)]
pub enum MetaCommandError {
    UnrecognizedCommand,
}

/// What a meta-command asks of the program.
#[derive(Debug, PartialEq, Eq)]
pub enum MetaCommand {
    /// Close the table and stop.
    Exit,
    /// Print this text.
    Print(Vec<u8>),
}

/// Whether two byte strings are equal.
pub fn bytes_equal(a: &[u8], b: &[u8]) -> (r: bool)
    ensures
        r == (a@ == b@),
{
    if a.len() != b.len() {
        return false;
    }
    let mut i: usize = 0;
    while i < a.len()
        invariant
            0 <= i <= a@.len(),
            a@.len() == b@.len(),
            forall|k: int| 0 <= k < i ==> a@[k] == b@[k],
        decreases a@.len() - i,
    {
        if a[i] != b[i] {
            return false;
        }
        i = i + 1;
    }
    assert(a@ =~= b@);
    true
}

proof fn lemma_meta_words_differ()
    ensures
        ".exit".spec_bytes() != ".btree".spec_bytes(),
        ".exit".spec_bytes() != ".constants".spec_bytes(),
        ".btree".spec_bytes() != ".constants".spec_bytes(),
{
    reveal_strlit(".exit");
    reveal_strlit(".btree");
    reveal_strlit(".constants");
    assert(vstd::string::is_ascii(".exit"));
    assert(vstd::string::is_ascii(".btree"));
    assert(vstd::string::is_ascii(".constants"));
    vstd::string::is_ascii_spec_bytes(".exit");
    vstd::string::is_ascii_spec_bytes(".btree");
    vstd::string::is_ascii_spec_bytes(".constants");
    assert(".exit".spec_bytes().len() == 5);
    assert(".btree".spec_bytes().len() == 6);
    assert(".constants".spec_bytes().len() == 10);
}

/// `body` after a title line.
fn titled(title: &str, body: Vec<u8>) -> (r: Vec<u8>)
    ensures
        r@ == title.spec_bytes() + body@,
{
    let mut out: Vec<u8> = Vec::new();
    push_bytes(&mut out, title.as_bytes());
    push_bytes(&mut out, body.as_slice());
    assert(out@ =~= title.spec_bytes() + body@);
    out
}

/// Runs a meta-command: `.exit`, `.btree` (the tree after a line `Tree:`) or `.constants`
/// (the layout sizes after a line `Constants:`).
pub fn do_meta_command<S>(query: &str, table: &Table<S>) -> (r: Result<MetaCommand, MetaCommandError>)
    requires
        table.wf(),
    ensures
        query.spec_bytes() == ".exit".spec_bytes() ==> r == Ok::<MetaCommand, MetaCommandError>(MetaCommand::Exit),
        query.spec_bytes() == ".btree".spec_bytes() ==> (r matches Ok(MetaCommand::Print(t)) && t@ == "Tree:\n".spec_bytes() + tree_text(table.pages())),
        query.spec_bytes() == ".constants".spec_bytes() ==> (r matches Ok(MetaCommand::Print(t)) && t@ == "Constants:\n".spec_bytes() + constants_text()),
        query.spec_bytes() != ".exit".spec_bytes() && query.spec_bytes() != ".btree".spec_bytes()
            && query.spec_bytes() != ".constants".spec_bytes() ==> r == Err::<MetaCommand, MetaCommandError>(MetaCommandError::UnrecognizedCommand),
{
    let q = query.as_bytes();
    proof {
        lemma_meta_words_differ();
    }
    if bytes_equal(q, ".exit".as_bytes()) {
        Ok(MetaCommand::Exit)
    } else if bytes_equal(q, ".btree".as_bytes()) {
        let tree = print_tree(table);
        Ok(MetaCommand::Print(titled("Tree:\n", tree)))
    } else if bytes_equal(q, ".constants".as_bytes()) {
        Ok(MetaCommand::Print(titled("Constants:\n", print_constants())))
    } else {
        Err(MetaCommandError::UnrecognizedCommand)
    }
}

} // verus!
