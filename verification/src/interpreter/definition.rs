use vstd::prelude::*;
use vstd::slice::slice_subrange;

use crate::interpreter::collate::{lower, Collation};
use crate::interpreter::numeric::{is_space, skip_spaces};
use crate::interpreter::parser::{dequote, dequoted, is_quote};
use crate::interpreter::schema::{
    calc_collation, calc_type_affinity, collation_named, declared_affinity, names_match, same_name,
    Column,
};
use crate::interpreter::value::TypeAffinity;

verus! {

/// Whether a byte can stand in a word: a letter, a digit, the underscore,
/// the dollar sign, or a byte beyond ASCII.
pub open spec fn is_word_byte(b: u8) -> bool {
    (48 <= b <= 57) || (65 <= b <= 90) || (97 <= b <= 122) || b == 95 || b == 36 || b >= 128
}

/// The end of the word that has begun before `j`.
pub open spec fn word_end(s: Seq<u8>, j: int) -> int
    decreases s.len() - j,
{
    if 0 <= j < s.len() && is_word_byte(s[j]) {
        word_end(s, j + 1)
    } else {
        j
    }
}

/// The end of the quoted token whose opening quote stands before `j`: the
/// place behind the closing quote. Two quotes in a row stand for a quote
/// within the token. A token whose closing quote is missing ends with the
/// text.
pub open spec fn quoted_end(s: Seq<u8>, j: int, quote: u8) -> int
    decreases s.len() - j,
{
    if j < 0 || j >= s.len() {
        s.len() as int
    } else if s[j] == quote {
        if j + 1 < s.len() && s[j + 1] == quote {
            quoted_end(s, j + 2, quote)
        } else {
            j + 1
        }
    } else {
        quoted_end(s, j + 1, quote)
    }
}

/// The end of the token in brackets whose opening bracket stands before
/// `j`: the place behind the closing bracket.
pub open spec fn bracket_end(s: Seq<u8>, j: int) -> int
    decreases s.len() - j,
{
    if j < 0 || j >= s.len() {
        s.len() as int
    } else if s[j] == 93 {
        j + 1
    } else {
        bracket_end(s, j + 1)
    }
}

/// The end of the token that begins at `i`: a quoted token, a token in
/// brackets, a word, or a single byte of any other kind.
pub open spec fn token_end(s: Seq<u8>, i: int) -> int {
    if i < 0 || i >= s.len() {
        i
    } else if is_quote(s[i]) {
        quoted_end(s, i + 1, s[i])
    } else if s[i] == 91 {
        bracket_end(s, i + 1)
    } else if is_word_byte(s[i]) {
        word_end(s, i + 1)
    } else {
        i + 1
    }
}

proof fn lemma_word_end(s: Seq<u8>, j: int)
    requires
        0 <= j <= s.len(),
    ensures
        j <= word_end(s, j) <= s.len(),
    decreases s.len() - j,
{
    if j < s.len() && is_word_byte(s[j]) {
        lemma_word_end(s, j + 1);
    }
}

proof fn lemma_quoted_end(s: Seq<u8>, j: int, quote: u8)
    requires
        0 <= j,
    ensures
        j <= quoted_end(s, j, quote) || quoted_end(s, j, quote) == s.len(),
        quoted_end(s, j, quote) <= s.len(),
    decreases s.len() - j,
{
    if j < s.len() {
        if s[j] == quote {
            if j + 1 < s.len() && s[j + 1] == quote {
                lemma_quoted_end(s, j + 2, quote);
            }
        } else {
            lemma_quoted_end(s, j + 1, quote);
        }
    }
}

proof fn lemma_bracket_end(s: Seq<u8>, j: int)
    requires
        0 <= j,
    ensures
        j <= bracket_end(s, j) || bracket_end(s, j) == s.len(),
        bracket_end(s, j) <= s.len(),
    decreases s.len() - j,
{
    if j < s.len() && s[j] != 93 {
        lemma_bracket_end(s, j + 1);
    }
}

/// A token is not empty and ends within the text.
pub proof fn lemma_token_end(s: Seq<u8>, i: int)
    requires
        0 <= i < s.len(),
    ensures
        i < token_end(s, i) <= s.len(),
{
    lemma_word_end(s, i + 1);
    lemma_quoted_end(s, i + 1, s[i]);
    lemma_bracket_end(s, i + 1);
}

fn word_byte(b: u8) -> (r: bool)
    ensures
        r == is_word_byte(b),
{
    (48 <= b && b <= 57) || (65 <= b && b <= 90) || (97 <= b && b <= 122) || b == 95 || b == 36
        || b >= 128
}

/// The end of the token that begins at `i`; see [`token_end`].
pub(crate) fn find_token_end(s: &[u8], i: usize) -> (r: usize)
    requires
        i < s@.len(),
    ensures
        r == token_end(s@, i as int),
        i < r <= s@.len(),
{
    proof {
        lemma_token_end(s@, i as int);
    }
    let len: usize = s.len();
    let c: u8 = s[i];
    let mut j: usize = i + 1;
    if c == 34 || c == 39 || c == 96 {
        while j < len
            invariant
                i < j <= len + 1,
                len == s@.len(),
                token_end(s@, i as int) == quoted_end(s@, i + 1, c),
                quoted_end(s@, j as int, c) == quoted_end(s@, i + 1, c),
            decreases len + 1 - j,
        {
            if s[j] == c {
                if j + 1 < len && s[j + 1] == c {
                    j = j + 2;
                } else {
                    return j + 1;
                }
            } else {
                j = j + 1;
            }
        }
        len
    } else if c == 91 {
        while j < len
            invariant
                i < j <= len,
                len == s@.len(),
                token_end(s@, i as int) == bracket_end(s@, i + 1),
                bracket_end(s@, j as int) == bracket_end(s@, i + 1),
            decreases len - j,
        {
            if s[j] == 93 {
                return j + 1;
            }
            j = j + 1;
        }
        len
    } else if word_byte(c) {
        while j < len && word_byte(s[j])
            invariant
                i < j <= len,
                len == s@.len(),
                word_end(s@, j as int) == word_end(s@, i + 1),
            decreases len - j,
        {
            j = j + 1;
        }
        j
    } else {
        i + 1
    }
}

/// The first place at or after `i` that holds no white space; see
/// [`skip_spaces`].
pub(crate) fn find_token_start(s: &[u8], i: usize) -> (r: usize)
    requires
        i <= s@.len(),
    ensures
        r == skip_spaces(s@, i as int),
        i <= r <= s@.len(),
{
    let mut j: usize = i;
    while j < s.len() && (s[j] == 32 || (9 <= s[j] && s[j] <= 13))
        invariant
            i <= j <= s@.len(),
            skip_spaces(s@, j as int) == skip_spaces(s@, i as int),
        decreases s@.len() - j,
    {
        j = j + 1;
    }
    j
}

/// Whether the bytes from `a` up to `b` write `word`, which is in small
/// letters, whatever the case of their letters.
pub open spec fn is_keyword(s: Seq<u8>, a: int, b: int, word: Seq<u8>) -> bool {
    &&& 0 <= a <= b <= s.len()
    &&& b - a == word.len()
    &&& forall|k: int| 0 <= k < word.len() ==> lower(#[trigger] s[a + k]) == word[k]
}

/// Whether the bytes from `a` up to `b` write `word`; see [`is_keyword`].
pub(crate) fn keyword(s: &[u8], a: usize, b: usize, word: &[u8]) -> (r: bool)
    requires
        a <= b <= s@.len(),
    ensures
        r == is_keyword(s@, a as int, b as int, word@),
{
    if b - a != word.len() {
        return false;
    }
    let mut k: usize = 0;
    while k < word.len()
        invariant
            k <= word@.len(),
            a <= b <= s@.len(),
            b - a == word@.len(),
            forall|j: int| 0 <= j < k ==> lower(#[trigger] s@[a + j]) == word@[j],
        decreases word@.len() - k,
    {
        let c: u8 = s[a + k];
        let folded: u8 = if 65 <= c && c <= 90 {
            c + 32
        } else {
            c
        };
        if folded != word[k] {
            assert(lower(s@[a + k]) != word@[k as int]);
            return false;
        }
        k = k + 1;
    }
    true
}


/// White space does not lead backwards.
pub proof fn lemma_skip_spaces(s: Seq<u8>, i: int)
    requires
        0 <= i <= s.len(),
    ensures
        i <= skip_spaces(s, i) <= s.len(),
    decreases s.len() - i,
{
    if i < s.len() && is_space(s[i]) {
        lemma_skip_spaces(s, i + 1);
    }
}

/// The place behind the first opening parenthesis at or after `i`, where
/// the list of the columns begins; the end of the text where there is none.
pub open spec fn list_start(s: Seq<u8>, i: int) -> int
    decreases s.len() - i,
{
    let a = skip_spaces(s, i);
    let e = token_end(s, a);
    if i < 0 || a < i || a >= s.len() || e <= a || e > s.len() {
        s.len() as int
    } else if s[a] == 40 {
        a + 1
    } else {
        list_start(s, e)
    }
}

/// The place of the token that ends the item of the list in which `i`
/// lies, `depth` parentheses deep: the comma behind the item, or the closing
/// parenthesis of the list; the end of the text where there is neither.
pub open spec fn item_end(s: Seq<u8>, i: int, depth: nat) -> int
    decreases s.len() - i,
{
    let a = skip_spaces(s, i);
    let e = token_end(s, a);
    if i < 0 || a < i || a >= s.len() || e <= a || e > s.len() {
        s.len() as int
    } else if s[a] == 40 {
        item_end(s, e, depth + 1)
    } else if s[a] == 41 {
        if depth == 0 {
            a
        } else {
            item_end(s, e, (depth - 1) as nat)
        }
    } else if s[a] == 44 && depth == 0 {
        a
    } else {
        item_end(s, e, depth)
    }
}

pub proof fn lemma_item_end(s: Seq<u8>, i: int, depth: nat)
    requires
        0 <= i <= s.len(),
    ensures
        i <= item_end(s, i, depth) <= s.len(),
    decreases s.len() - i,
{
    let a = skip_spaces(s, i);
    lemma_skip_spaces(s, i);
    if a < s.len() {
        lemma_token_end(s, a);
        let e = token_end(s, a);
        if s[a] == 40 {
            lemma_item_end(s, e, depth + 1);
        } else if s[a] == 41 {
            if depth > 0 {
                lemma_item_end(s, e, (depth - 1) as nat);
            }
        } else if s[a] == 44 && depth == 0 {
        } else {
            lemma_item_end(s, e, depth);
        }
    }
}

/// The place behind the first opening parenthesis; see [`list_start`].
pub(crate) fn find_list_start(s: &[u8]) -> (r: usize)
    ensures
        r == list_start(s@, 0),
        r <= s@.len(),
{
    let len: usize = s.len();
    let mut i: usize = 0;
    loop
        invariant
            i <= len,
            len == s@.len(),
            list_start(s@, i as int) == list_start(s@, 0),
        decreases len - i,
    {
        let a: usize = find_token_start(s, i);
        if a >= len {
            return len;
        }
        if s[a] == 40 {
            return a + 1;
        }
        i = find_token_end(s, a);
    }
}

/// The place of the token that ends the item in which `i` lies; see
/// [`item_end`].
pub(crate) fn find_item_end(s: &[u8], i: usize) -> (r: usize)
    requires
        i <= s@.len(),
    ensures
        r == item_end(s@, i as int, 0),
        i <= r <= s@.len(),
{
    let len: usize = s.len();
    let mut j: usize = i;
    let mut depth: usize = 0;
    proof {
        lemma_item_end(s@, i as int, 0);
    }
    loop
        invariant
            i <= j <= len,
            len == s@.len(),
            depth <= j,
            item_end(s@, j as int, depth as nat) == item_end(s@, i as int, 0),
            i <= item_end(s@, i as int, 0) <= len,
        decreases len - j,
    {
        let a: usize = find_token_start(s, j);
        if a >= len {
            return len;
        }
        let e: usize = find_token_end(s, a);
        if s[a] == 40 {
            depth = depth + 1;
        } else if s[a] == 41 {
            if depth == 0 {
                return a;
            }
            depth = depth - 1;
        } else if s[a] == 44 && depth == 0 {
            return a;
        }
        j = e;
    }
}


/// The word `constraint`.
pub open spec fn word_constraint() -> Seq<u8> {
    seq![99u8, 111u8, 110u8, 115u8, 116u8, 114u8, 97u8, 105u8, 110u8, 116u8]
}

fn constraint_word() -> (r: Vec<u8>)
    ensures
        r@ == word_constraint(),
{
    let r: Vec<u8> = vec![99u8, 111u8, 110u8, 115u8, 116u8, 114u8, 97u8, 105u8, 110u8, 116u8];
    assert(r@ =~= word_constraint());
    r
}

/// The word `primary`.
pub open spec fn word_primary() -> Seq<u8> {
    seq![112u8, 114u8, 105u8, 109u8, 97u8, 114u8, 121u8]
}

fn primary_word() -> (r: Vec<u8>)
    ensures
        r@ == word_primary(),
{
    let r: Vec<u8> = vec![112u8, 114u8, 105u8, 109u8, 97u8, 114u8, 121u8];
    assert(r@ =~= word_primary());
    r
}

/// The word `unique`.
pub open spec fn word_unique() -> Seq<u8> {
    seq![117u8, 110u8, 105u8, 113u8, 117u8, 101u8]
}

fn unique_word() -> (r: Vec<u8>)
    ensures
        r@ == word_unique(),
{
    let r: Vec<u8> = vec![117u8, 110u8, 105u8, 113u8, 117u8, 101u8];
    assert(r@ =~= word_unique());
    r
}

/// The word `check`.
pub open spec fn word_check() -> Seq<u8> {
    seq![99u8, 104u8, 101u8, 99u8, 107u8]
}

fn check_word() -> (r: Vec<u8>)
    ensures
        r@ == word_check(),
{
    let r: Vec<u8> = vec![99u8, 104u8, 101u8, 99u8, 107u8];
    assert(r@ =~= word_check());
    r
}

/// The word `foreign`.
pub open spec fn word_foreign() -> Seq<u8> {
    seq![102u8, 111u8, 114u8, 101u8, 105u8, 103u8, 110u8]
}

fn foreign_word() -> (r: Vec<u8>)
    ensures
        r@ == word_foreign(),
{
    let r: Vec<u8> = vec![102u8, 111u8, 114u8, 101u8, 105u8, 103u8, 110u8];
    assert(r@ =~= word_foreign());
    r
}

/// The word `not`.
pub open spec fn word_not() -> Seq<u8> {
    seq![110u8, 111u8, 116u8]
}

fn not_word() -> (r: Vec<u8>)
    ensures
        r@ == word_not(),
{
    let r: Vec<u8> = vec![110u8, 111u8, 116u8];
    assert(r@ =~= word_not());
    r
}

/// The word `null`.
pub open spec fn word_null() -> Seq<u8> {
    seq![110u8, 117u8, 108u8, 108u8]
}

fn null_word() -> (r: Vec<u8>)
    ensures
        r@ == word_null(),
{
    let r: Vec<u8> = vec![110u8, 117u8, 108u8, 108u8];
    assert(r@ =~= word_null());
    r
}

/// The word `default`.
pub open spec fn word_default() -> Seq<u8> {
    seq![100u8, 101u8, 102u8, 97u8, 117u8, 108u8, 116u8]
}

fn default_word() -> (r: Vec<u8>)
    ensures
        r@ == word_default(),
{
    let r: Vec<u8> = vec![100u8, 101u8, 102u8, 97u8, 117u8, 108u8, 116u8];
    assert(r@ =~= word_default());
    r
}

/// The word `collate`.
pub open spec fn word_collate() -> Seq<u8> {
    seq![99u8, 111u8, 108u8, 108u8, 97u8, 116u8, 101u8]
}

fn collate_word() -> (r: Vec<u8>)
    ensures
        r@ == word_collate(),
{
    let r: Vec<u8> = vec![99u8, 111u8, 108u8, 108u8, 97u8, 116u8, 101u8];
    assert(r@ =~= word_collate());
    r
}

/// The word `references`.
pub open spec fn word_references() -> Seq<u8> {
    seq![114u8, 101u8, 102u8, 101u8, 114u8, 101u8, 110u8, 99u8, 101u8, 115u8]
}

fn references_word() -> (r: Vec<u8>)
    ensures
        r@ == word_references(),
{
    let r: Vec<u8> = vec![114u8, 101u8, 102u8, 101u8, 114u8, 101u8, 110u8, 99u8, 101u8, 115u8];
    assert(r@ =~= word_references());
    r
}

/// The word `generated`.
pub open spec fn word_generated() -> Seq<u8> {
    seq![103u8, 101u8, 110u8, 101u8, 114u8, 97u8, 116u8, 101u8, 100u8]
}

fn generated_word() -> (r: Vec<u8>)
    ensures
        r@ == word_generated(),
{
    let r: Vec<u8> = vec![103u8, 101u8, 110u8, 101u8, 114u8, 97u8, 116u8, 101u8, 100u8];
    assert(r@ =~= word_generated());
    r
}

/// The word `as`.
pub open spec fn word_as() -> Seq<u8> {
    seq![97u8, 115u8]
}

fn as_word() -> (r: Vec<u8>)
    ensures
        r@ == word_as(),
{
    let r: Vec<u8> = vec![97u8, 115u8];
    assert(r@ =~= word_as());
    r
}

/// The word `key`.
pub open spec fn word_key() -> Seq<u8> {
    seq![107u8, 101u8, 121u8]
}

fn key_word() -> (r: Vec<u8>)
    ensures
        r@ == word_key(),
{
    let r: Vec<u8> = vec![107u8, 101u8, 121u8];
    assert(r@ =~= word_key());
    r
}

/// Whether the token from `a` up to `e` begins a constraint of the table
/// rather than a column.
pub open spec fn starts_table_constraint(s: Seq<u8>, a: int, e: int) -> bool {
    is_keyword(s, a, e, word_constraint()) || is_keyword(s, a, e, word_primary()) || is_keyword(
        s,
        a,
        e,
        word_unique(),
    ) || is_keyword(s, a, e, word_check()) || is_keyword(s, a, e, word_foreign())
}

/// Whether the token from `a` up to `e` begins a constraint of a column,
/// and so ends its declared type.
pub open spec fn starts_column_constraint(s: Seq<u8>, a: int, e: int) -> bool {
    is_keyword(s, a, e, word_constraint()) || is_keyword(s, a, e, word_primary()) || is_keyword(
        s,
        a,
        e,
        word_not(),
    ) || is_keyword(s, a, e, word_null()) || is_keyword(s, a, e, word_unique()) || is_keyword(
        s,
        a,
        e,
        word_check(),
    ) || is_keyword(s, a, e, word_default()) || is_keyword(s, a, e, word_collate())
        || is_keyword(s, a, e, word_references()) || is_keyword(s, a, e, word_generated())
        || is_keyword(s, a, e, word_as())
}

fn table_constraint_at(s: &[u8], a: usize, e: usize) -> (r: bool)
    requires
        a <= e <= s@.len(),
    ensures
        r == starts_table_constraint(s@, a as int, e as int),
{
    keyword(s, a, e, constraint_word().as_slice()) || keyword(s, a, e, primary_word().as_slice())
        || keyword(s, a, e, unique_word().as_slice()) || keyword(s, a, e, check_word().as_slice())
        || keyword(s, a, e, foreign_word().as_slice())
}

fn column_constraint_at(s: &[u8], a: usize, e: usize) -> (r: bool)
    requires
        a <= e <= s@.len(),
    ensures
        r == starts_column_constraint(s@, a as int, e as int),
{
    keyword(s, a, e, constraint_word().as_slice()) || keyword(s, a, e, primary_word().as_slice())
        || keyword(s, a, e, not_word().as_slice()) || keyword(s, a, e, null_word().as_slice())
        || keyword(s, a, e, unique_word().as_slice()) || keyword(s, a, e, check_word().as_slice())
        || keyword(s, a, e, default_word().as_slice()) || keyword(
        s,
        a,
        e,
        collate_word().as_slice(),
    ) || keyword(s, a, e, references_word().as_slice()) || keyword(
        s,
        a,
        e,
        generated_word().as_slice(),
    ) || keyword(s, a, e, as_word().as_slice())
}

/// The end of the declared type of a column: the end of the last token
/// before the first constraint of the column, within the item that ends at
/// `b`. `last` is the end of the last token read so far.
pub open spec fn type_stop(s: Seq<u8>, i: int, b: int, depth: nat, last: int) -> int
    decreases b - i,
{
    let a = skip_spaces(s, i);
    let e = token_end(s, a);
    if i < 0 || a < i || a >= b || b > s.len() || e <= a || e > b {
        last
    } else if depth == 0 && starts_column_constraint(s, a, e) {
        last
    } else if s[a] == 40 {
        type_stop(s, e, b, depth + 1, e)
    } else if s[a] == 41 {
        type_stop(
            s,
            e,
            b,
            if depth > 0 {
                (depth - 1) as nat
            } else {
                0
            },
            e,
        )
    } else {
        type_stop(s, e, b, depth, e)
    }
}

/// The end of the declared type of a column; see [`type_stop`].
fn find_type_stop(s: &[u8], from: usize, b: usize) -> (r: usize)
    requires
        from <= b <= s@.len(),
    ensures
        r == type_stop(s@, from as int, b as int, 0, from as int),
        from <= r <= b,
{
    let mut i: usize = from;
    let mut last: usize = from;
    let mut depth: usize = 0;
    loop
        invariant
            from <= last <= i <= b <= s@.len(),
            depth <= i,
            type_stop(s@, i as int, b as int, depth as nat, last as int) == type_stop(
                s@,
                from as int,
                b as int,
                0,
                from as int,
            ),
        decreases b - i,
    {
        let a: usize = find_token_start(s, i);
        if a >= b {
            return last;
        }
        let e: usize = find_token_end(s, a);
        if e > b {
            return last;
        }
        if depth == 0 && column_constraint_at(s, a, e) {
            return last;
        }
        if s[a] == 40 {
            depth = depth + 1;
        } else if s[a] == 41 {
            if depth > 0 {
                depth = depth - 1;
            }
        }
        last = e;
        i = e;
    }
}

/// Whether the words `primary key` stand among the tokens from `i` up to
/// `b`.
pub open spec fn has_primary_key(s: Seq<u8>, i: int, b: int) -> bool
    decreases b - i,
{
    let a = skip_spaces(s, i);
    let e = token_end(s, a);
    let k = skip_spaces(s, e);
    let ke = token_end(s, k);
    if i < 0 || a < i || a >= b || b > s.len() || e <= a || e > b {
        false
    } else if is_keyword(s, a, e, word_primary()) && e <= k < b && k < ke <= b && is_keyword(
        s,
        k,
        ke,
        word_key(),
    ) {
        true
    } else {
        has_primary_key(s, e, b)
    }
}

fn find_primary_key(s: &[u8], from: usize, b: usize) -> (r: bool)
    requires
        from <= b <= s@.len(),
    ensures
        r == has_primary_key(s@, from as int, b as int),
{
    let mut i: usize = from;
    loop
        invariant
            from <= i <= b <= s@.len(),
            has_primary_key(s@, i as int, b as int) == has_primary_key(
                s@,
                from as int,
                b as int,
            ),
        decreases b - i,
    {
        let a: usize = find_token_start(s, i);
        if a >= b {
            return false;
        }
        let e: usize = find_token_end(s, a);
        if e > b {
            return false;
        }
        if keyword(s, a, e, primary_word().as_slice()) {
            let k: usize = find_token_start(s, e);
            if k < b {
                let ke: usize = find_token_end(s, k);
                if ke <= b && keyword(s, k, ke, key_word().as_slice()) {
                    return true;
                }
            }
        }
        i = e;
    }
}

/// What a name stands for: a name in brackets without them, a quoted name
/// without its quotes, any other as it is.
pub open spec fn identifier(token: Seq<u8>) -> Seq<u8> {
    if token.len() >= 2 && token[0] == 91 && token.last() == 93 {
        token.subrange(1, token.len() - 1)
    } else {
        dequoted(token)
    }
}

/// What a name stands for; see [`identifier`].
pub fn identifier_of(token: &[u8]) -> (r: Vec<u8>)
    ensures
        r@ == identifier(token@),
{
    let n: usize = token.len();
    if n >= 2 && token[0] == 91 && token[n - 1] == 93 {
        let mut out: Vec<u8> = Vec::new();
        out.extend_from_slice(slice_subrange(token, 1, n - 1));
        assert(out@ =~= token@.subrange(1, n - 1));
        out
    } else {
        dequote(token)
    }
}

/// The collation that a column declares among the tokens from `i` up to
/// `b`: the one that the first `collate` names; the binary one where there
/// is none, or where no collation has the name.
pub open spec fn collation_in(s: Seq<u8>, i: int, b: int) -> Collation
    decreases b - i,
{
    let a = skip_spaces(s, i);
    let e = token_end(s, a);
    let k = skip_spaces(s, e);
    let ke = token_end(s, k);
    if i < 0 || a < i || a >= b || b > s.len() || e <= a || e > b {
        Collation::Binary
    } else if is_keyword(s, a, e, word_collate()) {
        if e <= k < b && k < ke <= b {
            match collation_named(identifier(s.subrange(k, ke))) {
                Some(c) => c,
                None => Collation::Binary,
            }
        } else {
            Collation::Binary
        }
    } else {
        collation_in(s, e, b)
    }
}

fn find_collation(s: &[u8], from: usize, b: usize) -> (r: Collation)
    requires
        from <= b <= s@.len(),
    ensures
        r == collation_in(s@, from as int, b as int),
{
    let mut i: usize = from;
    loop
        invariant
            from <= i <= b <= s@.len(),
            collation_in(s@, i as int, b as int) == collation_in(s@, from as int, b as int),
        decreases b - i,
    {
        let a: usize = find_token_start(s, i);
        if a >= b {
            return Collation::Binary;
        }
        let e: usize = find_token_end(s, a);
        if e > b {
            return Collation::Binary;
        }
        if keyword(s, a, e, collate_word().as_slice()) {
            let k: usize = find_token_start(s, e);
            if k < b {
                let ke: usize = find_token_end(s, k);
                if ke <= b {
                    let name: Vec<u8> = identifier_of(slice_subrange(s, k, ke));
                    return match calc_collation(name.as_slice()) {
                        Some(c) => c,
                        None => Collation::Binary,
                    };
                }
            }
            return Collation::Binary;
        }
        i = e;
    }
}

/// What a [`Column`] holds.
pub struct ColumnView {
    pub name: Seq<u8>,
    pub type_affinity: TypeAffinity,
    pub primary_key: bool,
    pub collation: Collation,
}

/// What a column holds.
pub open spec fn column_view(c: Column) -> ColumnView {
    ColumnView {
        name: c.name@,
        type_affinity: c.type_affinity,
        primary_key: c.primary_key,
        collation: c.collation,
    }
}

/// What the columns hold.
pub open spec fn columns_view(columns: Seq<Column>) -> Seq<ColumnView> {
    Seq::new(columns.len(), |i: int| column_view(columns[i]))
}

/// The column that the item from `a` up to `b` declares: its first token is
/// the name; the tokens behind it up to the first constraint are the
/// declared type, which gives the affinity; the constraints say whether the
/// column is the primary key, and name its collation.
pub open spec fn column_at(s: Seq<u8>, a: int, b: int) -> ColumnView {
    let e = token_end(s, a);
    let stop = type_stop(s, e, b, 0, e);
    ColumnView {
        name: identifier(s.subrange(a, e)),
        type_affinity: declared_affinity(s.subrange(e, stop)),
        primary_key: has_primary_key(s, stop, b),
        collation: collation_in(s, stop, b),
    }
}

fn read_column(s: &[u8], a: usize, b: usize) -> (r: Column)
    requires
        a < b <= s@.len(),
        token_end(s@, a as int) <= b,
    ensures
        column_view(r) == column_at(s@, a as int, b as int),
{
    let e: usize = find_token_end(s, a);
    let stop: usize = find_type_stop(s, e, b);
    Column {
        name: identifier_of(slice_subrange(s, a, e)),
        type_affinity: calc_type_affinity(slice_subrange(s, e, stop)),
        primary_key: find_primary_key(s, stop, b),
        collation: find_collation(s, stop, b),
    }
}

/// The columns that the items of a list declare from `i` on. An item that
/// begins a constraint of the table declares none.
pub open spec fn columns_from(s: Seq<u8>, i: int) -> Seq<ColumnView>
    decreases s.len() - i,
{
    let a = skip_spaces(s, i);
    let b = item_end(s, a, 0);
    let e = token_end(s, a);
    if i < 0 || a < i || a >= s.len() || b < a || b > s.len() {
        Seq::<ColumnView>::empty()
    } else {
        let item = if a < b && e <= b && !starts_table_constraint(s, a, e) {
            seq![column_at(s, a, b)]
        } else {
            Seq::<ColumnView>::empty()
        };
        if b >= s.len() || s[b] != 44 {
            item
        } else {
            item + columns_from(s, b + 1)
        }
    }
}

/// The columns that the items of a list declare; see [`columns_from`].
fn read_columns(s: &[u8], from: usize) -> (r: Vec<Column>)
    requires
        from <= s@.len(),
    ensures
        columns_view(r@) == columns_from(s@, from as int),
{
    let len: usize = s.len();
    let mut out: Vec<Column> = Vec::new();
    let mut i: usize = from;
    assert(columns_view(out@) =~= Seq::<ColumnView>::empty());
    assert(columns_view(out@) + columns_from(s@, from as int) =~= columns_from(s@, from as int));
    loop
        invariant
            from <= i <= len,
            len == s@.len(),
            columns_view(out@) + columns_from(s@, i as int) == columns_from(s@, from as int),
        decreases len - i,
    {
        let a: usize = find_token_start(s, i);
        if a >= len {
            assert(columns_view(out@) + Seq::<ColumnView>::empty() =~= columns_view(out@));
            return out;
        }
        let b: usize = find_item_end(s, a);
        let e: usize = find_token_end(s, a);
        let ghost before = columns_view(out@);
        let ghost item = if a < b && e <= b && !starts_table_constraint(s@, a as int, e as int) {
            seq![column_at(s@, a as int, b as int)]
        } else {
            Seq::<ColumnView>::empty()
        };
        if a < b && e <= b && !table_constraint_at(s, a, e) {
            let column: Column = read_column(s, a, b);
            out.push(column);
        }
        assert(columns_view(out@) =~= before + item);
        if b >= len || s[b] != 44 {
            return out;
        }
        assert(before + (item + columns_from(s@, b + 1)) =~= columns_view(out@) + columns_from(
            s@,
            b + 1,
        ));
        i = b + 1;
    }
}


/// The token that begins at or after `i` and ends at or before `b`: where
/// it begins and where it ends.
pub open spec fn token_after(s: Seq<u8>, i: int, b: int) -> Option<(int, int)> {
    let a = skip_spaces(s, i);
    let e = token_end(s, a);
    if 0 <= i <= a && a < b && b <= s.len() && a < e <= b {
        Some((a, e))
    } else {
        None
    }
}

fn next_token(s: &[u8], i: usize, b: usize) -> (r: Option<(usize, usize)>)
    requires
        i <= s@.len(),
        b <= s@.len(),
    ensures
        match r {
            Some((a, e)) => token_after(s@, i as int, b as int) == Some((a as int, e as int)) && i
                <= a < e <= b,
            None => token_after(s@, i as int, b as int) is None,
        },
{
    let a: usize = find_token_start(s, i);
    if a >= b {
        return None;
    }
    let e: usize = find_token_end(s, a);
    if e > b {
        return None;
    }
    Some((a, e))
}

/// The column that a constraint of the table makes its primary key, where
/// the item from `a` up to `b` is such a constraint and names one column:
/// the words `primary key`, perhaps behind `constraint` and a name, and the
/// name of the column in parentheses.
pub open spec fn key_in_item(s: Seq<u8>, a: int, b: int) -> Option<Seq<u8>> {
    match token_after(s, a, b) {
        None => None,
        Some((f, fe)) => {
            let from = if is_keyword(s, f, fe, word_constraint()) {
                match token_after(s, fe, b) {
                    Some((_, ne)) => ne,
                    None => b,
                }
            } else {
                f
            };
            match token_after(s, from, b) {
                None => None,
                Some((p, pe)) => match token_after(s, pe, b) {
                    None => None,
                    Some((k, ke)) => match token_after(s, ke, b) {
                        None => None,
                        Some((o, oe)) => match token_after(s, oe, b) {
                            None => None,
                            Some((n, ne)) => match token_after(s, ne, b) {
                                None => None,
                                Some((c, ce)) => if is_keyword(s, p, pe, word_primary())
                                    && is_keyword(s, k, ke, word_key()) && s[o] == 40 && s[c]
                                    == 41 {
                                    Some(identifier(s.subrange(n, ne)))
                                } else {
                                    None
                                },
                            },
                        },
                    },
                },
            }
        },
    }
}

fn read_key_in_item(s: &[u8], a: usize, b: usize) -> (r: Option<Vec<u8>>)
    requires
        a <= b <= s@.len(),
    ensures
        match r {
            Some(name) => key_in_item(s@, a as int, b as int) == Some(name@),
            None => key_in_item(s@, a as int, b as int) is None,
        },
{
    let (f, fe) = match next_token(s, a, b) {
        None => {
            return None;
        },
        Some(t) => t,
    };
    let from: usize = if keyword(s, f, fe, constraint_word().as_slice()) {
        match next_token(s, fe, b) {
            Some((_, ne)) => ne,
            None => b,
        }
    } else {
        f
    };
    let (p, pe) = match next_token(s, from, b) {
        None => {
            return None;
        },
        Some(t) => t,
    };
    let (k, ke) = match next_token(s, pe, b) {
        None => {
            return None;
        },
        Some(t) => t,
    };
    let (o, oe) = match next_token(s, ke, b) {
        None => {
            return None;
        },
        Some(t) => t,
    };
    let (n, ne) = match next_token(s, oe, b) {
        None => {
            return None;
        },
        Some(t) => t,
    };
    let (c, ce) = match next_token(s, ne, b) {
        None => {
            return None;
        },
        Some(t) => t,
    };
    if keyword(s, p, pe, primary_word().as_slice()) && keyword(s, k, ke, key_word().as_slice())
        && s[o] == 40 && s[c] == 41 {
        Some(identifier_of(slice_subrange(s, n, ne)))
    } else {
        None
    }
}

/// The column that the first constraint of the table from `i` on makes the
/// primary key, if there is one that names one column.
pub open spec fn table_key(s: Seq<u8>, i: int) -> Option<Seq<u8>>
    decreases s.len() - i,
{
    let a = skip_spaces(s, i);
    let b = item_end(s, a, 0);
    if i < 0 || a < i || a >= s.len() || b < a || b > s.len() {
        None
    } else {
        match key_in_item(s, a, b) {
            Some(name) => Some(name),
            None => if b >= s.len() || s[b] != 44 {
                None
            } else {
                table_key(s, b + 1)
            },
        }
    }
}

fn read_table_key(s: &[u8], from: usize) -> (r: Option<Vec<u8>>)
    requires
        from <= s@.len(),
    ensures
        match r {
            Some(name) => table_key(s@, from as int) == Some(name@),
            None => table_key(s@, from as int) is None,
        },
{
    let len: usize = s.len();
    let mut i: usize = from;
    loop
        invariant
            from <= i <= len,
            len == s@.len(),
            table_key(s@, i as int) == table_key(s@, from as int),
        decreases len - i,
    {
        let a: usize = find_token_start(s, i);
        if a >= len {
            return None;
        }
        let b: usize = find_item_end(s, a);
        match read_key_in_item(s, a, b) {
            Some(name) => {
                return Some(name);
            },
            None => {},
        }
        if b >= len || s[b] != 44 {
            return None;
        }
        i = b + 1;
    }
}

/// The columns with each column of the name made the primary key.
pub open spec fn with_key(columns: Seq<ColumnView>, name: Seq<u8>) -> Seq<ColumnView> {
    Seq::new(
        columns.len(),
        |i: int|
            if same_name(columns[i].name, name) {
                ColumnView {
                    name: columns[i].name,
                    type_affinity: columns[i].type_affinity,
                    primary_key: true,
                    collation: columns[i].collation,
                }
            } else {
                columns[i]
            },
    )
}

fn mark_key(columns: Vec<Column>, name: &[u8]) -> (r: Vec<Column>)
    ensures
        columns_view(r@) == with_key(columns_view(columns@), name@),
{
    let mut out: Vec<Column> = Vec::new();
    let ghost all = columns_view(columns@);
    let mut rest: Vec<Column> = columns;
    let n: usize = rest.len();
    // The columns are taken from the end, so the result is built backwards
    // and turned round at last.
    let mut reversed: Vec<Column> = Vec::new();
    while rest.len() > 0
        invariant
            rest@.len() + reversed@.len() == n,
            n == all.len(),
            forall|k: int| 0 <= k < rest@.len() ==> column_view(#[trigger] rest@[k]) == all[k],
            forall|k: int|
                0 <= k < reversed@.len() ==> column_view(#[trigger] reversed@[k]) == with_key(
                    all,
                    name@,
                )[n - 1 - k],
        decreases rest@.len(),
    {
        let ghost at = rest@.len() - 1;
        let column: Column = rest.pop().unwrap();
        assert(column_view(column) == all[at]);
        let key: bool = names_match(column.name.as_slice(), name);
        let marked: Column = Column {
            name: column.name,
            type_affinity: column.type_affinity,
            primary_key: column.primary_key || key,
            collation: column.collation,
        };
        reversed.push(marked);
    }
    while reversed.len() > 0
        invariant
            out@.len() + reversed@.len() == n,
            n == all.len(),
            forall|k: int|
                0 <= k < reversed@.len() ==> column_view(#[trigger] reversed@[k]) == with_key(
                    all,
                    name@,
                )[n - 1 - k],
            forall|k: int|
                0 <= k < out@.len() ==> column_view(#[trigger] out@[k]) == with_key(all, name@)[k],
        decreases reversed@.len(),
    {
        let column: Column = reversed.pop().unwrap();
        out.push(column);
    }
    assert(columns_view(out@) =~= with_key(all, name@));
    out
}

/// The columns that the definition of a table declares, in the order of
/// their declaration. The list of the columns stands in the first
/// parentheses of the text, its items parted by commas. A column that a
/// constraint of the table makes the primary key counts as one that says so
/// itself.
pub open spec fn table_columns(sql: Seq<u8>) -> Seq<ColumnView> {
    let from = list_start(sql, 0);
    let columns = columns_from(sql, from);
    match table_key(sql, from) {
        Some(name) => with_key(columns, name),
        None => columns,
    }
}

/// The columns that the definition of a table declares; see
/// [`table_columns`].
pub fn parse_columns(sql: &[u8]) -> (r: Vec<Column>)
    ensures
        columns_view(r@) == table_columns(sql@),
{
    let from: usize = find_list_start(sql);
    let columns: Vec<Column> = read_columns(sql, from);
    match read_table_key(sql, from) {
        Some(name) => mark_key(columns, name.as_slice()),
        None => columns,
    }
}

} // verus!
