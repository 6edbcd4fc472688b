use vstd::prelude::*;
use vstd::string::StrSliceExecFns;

verus! {

/// The pattern typed for one column.
pub struct QueryField {
    pub column: usize,
    pub pattern: Vec<char>,
}

/// A picker's query, split by column: `%column:pattern` fills a column,
/// other words fill the primary column.
pub struct PickerQuery {
    pub column_names: Vec<String>,
    pub primary_column: usize,
    pub inner: Vec<QueryField>,
}

/// Fields as (column, pattern) pairs.
pub open spec fn fields_view(fields: Seq<QueryField>) -> Seq<(usize, Seq<char>)> {
    fields.map_values(|f: QueryField| (f.column, f.pattern@))
}

/// Where parsing stands after a prefix of the input.
pub struct ParseState {
    pub escaped: bool,
    pub quoted: bool,
    pub in_field: bool,
    pub field: Option<usize>,
    pub text: Seq<char>,
    pub fields: Seq<(usize, Seq<char>)>,
}

pub open spec fn is_prefix(p: Seq<char>, s: Seq<char>) -> bool {
    p.len() <= s.len() && s.subrange(0, p.len() as int) == p
}

/// From column `i` on, the shortest column name that starts with `prefix`,
/// the earliest among equally short ones; `best` is the pick so far.
pub open spec fn best_column_from(
    cols: Seq<Seq<char>>,
    prefix: Seq<char>,
    i: int,
    best: Option<usize>,
) -> Option<usize>
    decreases cols.len() - i,
{
    if i < 0 || i >= cols.len() {
        best
    } else {
        let pick = if is_prefix(prefix, cols[i]) && (best is None || cols[i].len() < cols[
            best->Some_0 as int
        ].len()) {
            Some(i as usize)
        } else {
            best
        };
        best_column_from(cols, prefix, i + 1, pick)
    }
}

/// Index of the first field of `column` from `i` on, or -1.
pub open spec fn find_field(fields: Seq<(usize, Seq<char>)>, column: usize, i: int) -> int
    decreases fields.len() - i,
{
    if i < 0 || i >= fields.len() {
        -1
    } else if fields[i].0 == column {
        i
    } else {
        find_field(fields, column, i + 1)
    }
}

/// Closes the pending text: it goes to the chosen column (the primary one
/// if none), after a space where that column has text already.
pub open spec fn finish_field(st: ParseState, primary: usize) -> ParseState {
    let key = match st.field {
        Some(k) => k,
        None => primary,
    };
    let i = find_field(st.fields, key, 0);
    let fields = if i >= 0 {
        st.fields.update(i, (key, st.fields[i].1.push(' ') + st.text))
    } else {
        st.fields.push((key, st.text))
    };
    ParseState { field: None, text: Seq::empty(), fields, ..st }
}

pub open spec fn initial_state() -> ParseState {
    ParseState {
        escaped: false,
        quoted: false,
        in_field: false,
        field: None,
        text: Seq::empty(),
        fields: Seq::empty(),
    }
}

/// One char of the query.
pub open spec fn parse_step(cols: Seq<Seq<char>>, primary: usize, st: ParseState, ch: char) -> ParseState {
    if st.escaped {
        let text = if ch != '%' && ch != '"' {
            st.text.push('\\').push(ch)
        } else {
            st.text.push(ch)
        };
        ParseState { text, escaped: false, ..st }
    } else if ch == '\\' {
        ParseState { escaped: true, ..st }
    } else if ch == '"' {
        ParseState { quoted: !st.quoted, ..st }
    } else if (ch == '%' || ch == ':' || ch == ' ') && st.quoted {
        ParseState { text: st.text.push(ch), ..st }
    } else if (ch == '%' || ch == ' ') && st.text.len() > 0 {
        ParseState { in_field: ch == '%', ..finish_field(st, primary) }
    } else if ch == '%' {
        ParseState { in_field: true, ..st }
    } else if ch == ':' && st.in_field {
        ParseState {
            field: best_column_from(cols, st.text, 0, None),
            text: Seq::empty(),
            in_field: false,
            ..st
        }
    } else {
        ParseState { text: st.text.push(ch), ..st }
    }
}

/// The state after the first `n` chars of `input`.
pub open spec fn parse_run(cols: Seq<Seq<char>>, primary: usize, input: Seq<char>, n: int) -> ParseState
    decreases n,
{
    if n <= 0 {
        initial_state()
    } else {
        parse_step(cols, primary, parse_run(cols, primary, input, n - 1), input[n - 1])
    }
}

/// The fields that `input` gives: a trailing word is kept, a trailing
/// `%column` without `:` is dropped.
pub open spec fn parse_fields(cols: Seq<Seq<char>>, primary: usize, input: Seq<char>) -> Seq<
    (usize, Seq<char>),
> {
    let st = parse_run(cols, primary, input, input.len() as int);
    if !st.in_field && st.text.len() > 0 {
        finish_field(st, primary).fields
    } else {
        st.fields
    }
}

/// The pattern of the first field whose column is named `name`.
pub open spec fn lookup(cols: Seq<Seq<char>>, fields: Seq<(usize, Seq<char>)>, name: Seq<char>, i: int) -> Option<
    Seq<char>,
>
    decreases fields.len() - i,
{
    if i < 0 || i >= fields.len() {
        None
    } else if fields[i].0 < cols.len() && cols[fields[i].0 as int] == name {
        Some(fields[i].1)
    } else {
        lookup(cols, fields, name, i + 1)
    }
}

fn same_chars(a: &str, b: &str) -> (r: bool)
    ensures
        r == (a@ == b@),
{
    let n = a.unicode_len();
    if n != b.unicode_len() {
        return false;
    }
    let mut i: usize = 0;
    while i < n
        invariant
            n == a@.len(),
            n == b@.len(),
            i <= n,
            a@.subrange(0, i as int) == b@.subrange(0, i as int),
        decreases n - i,
    {
        if a.get_char(i) != b.get_char(i) {
            return false;
        }
        proof {
            assert(a@.subrange(0, i + 1) =~= a@.subrange(0, i as int).push(a@[i as int]));
            assert(b@.subrange(0, i + 1) =~= b@.subrange(0, i as int).push(b@[i as int]));
        }
        i = i + 1;
    }
    assert(a@ =~= a@.subrange(0, n as int));
    assert(b@ =~= b@.subrange(0, n as int));
    true
}

fn starts_with(s: &str, p: &Vec<char>) -> (r: bool)
    ensures
        r == is_prefix(p@, s@),
{
    let n = s.unicode_len();
    if p.len() > n {
        return false;
    }
    let mut i: usize = 0;
    while i < p.len()
        invariant
            n == s@.len(),
            p@.len() <= n,
            i <= p@.len(),
            s@.subrange(0, i as int) == p@.subrange(0, i as int),
        decreases p@.len() - i,
    {
        if s.get_char(i) != p[i] {
            assert(s@.subrange(0, p@.len() as int)[i as int] == s@[i as int]);
            return false;
        }
        proof {
            assert(s@.subrange(0, i + 1) =~= s@.subrange(0, i as int).push(s@[i as int]));
            assert(p@.subrange(0, i + 1) =~= p@.subrange(0, i as int).push(p@[i as int]));
        }
        i = i + 1;
    }
    assert(p@ =~= p@.subrange(0, p@.len() as int));
    true
}

impl PickerQuery {
    pub open spec fn columns(&self) -> Seq<Seq<char>> {
        self.column_names@.map_values(|s: String| s@)
    }

    pub fn new(column_names: Vec<String>, primary_column: usize) -> (r: PickerQuery)
        ensures
            r.column_names@ == column_names@,
            r.primary_column == primary_column,
            r.inner@.len() == 0,
    {
        PickerQuery { column_names, primary_column, inner: Vec::new() }
    }

    /// The pattern typed for the column named `column`.
    pub fn get(&self, column: &str) -> (r: Option<&Vec<char>>)
        ensures
            match r {
                Some(p) => lookup(self.columns(), fields_view(self.inner@), column@, 0) == Some(p@),
                None => lookup(self.columns(), fields_view(self.inner@), column@, 0) is None,
            },
    {
        let mut i: usize = 0;
        while i < self.inner.len()
            invariant
                i <= self.inner@.len(),
                lookup(self.columns(), fields_view(self.inner@), column@, 0) == lookup(
                    self.columns(),
                    fields_view(self.inner@),
                    column@,
                    i as int,
                ),
            decreases self.inner@.len() - i,
        {
            let c = self.inner[i].column;
            if c < self.column_names.len() && same_chars(self.column_names[c].as_str(), column) {
                return Some(&self.inner[i].pattern);
            }
            i = i + 1;
        }
        None
    }

    /// The shortest column name that starts with `prefix`.
    fn best_column(&self, prefix: &Vec<char>) -> (r: Option<usize>)
        ensures
            r == best_column_from(self.columns(), prefix@, 0, None),
            r matches Some(c) ==> c < self.columns().len(),
    {
        let mut best: Option<usize> = None;
        let mut best_len: usize = 0;
        let mut i: usize = 0;
        while i < self.column_names.len()
            invariant
                i <= self.column_names@.len(),
                best matches Some(b) ==> b < i && best_len == self.columns()[b as int].len(),
                best_column_from(self.columns(), prefix@, 0, None) == best_column_from(
                    self.columns(),
                    prefix@,
                    i as int,
                    best,
                ),
            decreases self.column_names@.len() - i,
        {
            let name = self.column_names[i].as_str();
            if starts_with(name, prefix) {
                let len = name.unicode_len();
                if best.is_none() || len < best_len {
                    best = Some(i);
                    best_len = len;
                }
            }
            i = i + 1;
        }
        best
    }

    /// Splits `input` into the patterns of its columns, keeps them, and
    /// returns the patterns it had before.
    pub fn parse(&mut self, input: &str) -> (r: Vec<QueryField>)
        requires
            old(self).primary_column < old(self).column_names@.len(),
        ensures
            fields_view(final(self).inner@) == parse_fields(
                old(self).columns(),
                old(self).primary_column,
                input@,
            ),
            r@ == old(self).inner@,
            final(self).column_names@ == old(self).column_names@,
            final(self).primary_column == old(self).primary_column,
    {
        let ghost cols = self.columns();
        let primary = self.primary_column;
        let mut escaped = false;
        let mut quoted = false;
        let mut in_field = false;
        let mut field: Option<usize> = None;
        let mut text: Vec<char> = Vec::new();
        let mut fields: Vec<QueryField> = Vec::new();
        let n = input.unicode_len();
        let mut i: usize = 0;
        assert(fields_view(fields@) =~= Seq::empty());
        assert(text@ =~= Seq::<char>::empty());
        while i < n
            invariant
                n == input@.len(),
                i <= n,
                cols == self.columns(),
                primary == self.primary_column,
                self.primary_column < self.column_names@.len(),
                parse_run(cols, primary, input@, i as int) == (ParseState {
                    escaped,
                    quoted,
                    in_field,
                    field,
                    text: text@,
                    fields: fields_view(fields@),
                }),
            decreases n - i,
        {
            let ch = input.get_char(i);
            if escaped {
                if ch != '%' && ch != '"' {
                    text.push('\\');
                }
                text.push(ch);
                escaped = false;
            } else if ch == '\\' {
                escaped = true;
            } else if ch == '"' {
                quoted = !quoted;
            } else if (ch == '%' || ch == ':' || ch == ' ') && quoted {
                text.push(ch);
            } else if (ch == '%' || ch == ' ') && text.len() > 0 {
                finish(&mut fields, &mut field, &mut text, primary);
                in_field = ch == '%';
            } else if ch == '%' {
                in_field = true;
            } else if ch == ':' && in_field {
                field = self.best_column(&text);
                text = Vec::new();
                in_field = false;
            } else {
                text.push(ch);
            }
            proof {
                assert(text@ == parse_step(
                    cols,
                    primary,
                    parse_run(cols, primary, input@, i as int),
                    input@[i as int],
                ).text);
            }
            i = i + 1;
        }
        if !in_field && text.len() > 0 {
            finish(&mut fields, &mut field, &mut text, primary);
        }
        let mut r = fields;
        std::mem::swap(&mut self.inner, &mut r);
        r
    }
}

/// Moves the pending text into its column's field.
fn finish(fields: &mut Vec<QueryField>, field: &mut Option<usize>, text: &mut Vec<char>, primary: usize)
    ensures
        ({
            let st = ParseState {
                escaped: false,
                quoted: false,
                in_field: false,
                field: *old(field),
                text: old(text)@,
                fields: fields_view(old(fields)@),
            };
            let done = finish_field(st, primary);
            &&& fields_view(final(fields)@) == done.fields
            &&& *final(field) == done.field
            &&& final(text)@ == done.text
        }),
{
    let key = match *field {
        Some(k) => k,
        None => primary,
    };
    let ghost before = fields_view(fields@);
    let mut i: usize = 0;
    while i < fields.len()
        invariant
            i <= fields@.len(),
            fields@ == old(fields)@,
            before == fields_view(fields@),
            find_field(before, key, 0) == find_field(before, key, i as int),
        ensures
            i < fields@.len() ==> fields@[i as int].column == key,
        decreases fields@.len() - i,
    {
        if fields[i].column == key {
            break ;
        }
        i = i + 1;
    }
    if i < fields.len() {
        assert(before[i as int].0 == fields@[i as int].column);
        assert(find_field(before, key, 0) == i);
        let mut pattern: Vec<char> = Vec::new();
        let old_len = fields[i].pattern.len();
        let mut k: usize = 0;
        while k < old_len
            invariant
                i < fields@.len(),
                fields@ == old(fields)@,
                old_len == fields@[i as int].pattern@.len(),
                k <= old_len,
                pattern@ == fields@[i as int].pattern@.subrange(0, k as int),
            decreases old_len - k,
        {
            pattern.push(fields[i].pattern[k]);
            proof {
                assert(fields@[i as int].pattern@.subrange(0, k + 1) =~= fields@[
                    i as int
                ].pattern@.subrange(0, k as int).push(fields@[i as int].pattern@[k as int]));
            }
            k = k + 1;
        }
        assert(pattern@ =~= fields@[i as int].pattern@);
        pattern.push(' ');
        let ghost with_space = pattern@;
        let mut k: usize = 0;
        while k < text.len()
            invariant
                k <= text@.len(),
                text@ == old(text)@,
                pattern@ == with_space + text@.subrange(0, k as int),
            decreases text@.len() - k,
        {
            pattern.push(text[k]);
            proof {
                assert(text@.subrange(0, k + 1) =~= text@.subrange(0, k as int).push(
                    text@[k as int],
                ));
                assert(with_space + text@.subrange(0, k + 1) =~= (with_space + text@.subrange(
                    0,
                    k as int,
                )).push(text@[k as int]));
            }
            k = k + 1;
        }
        assert(text@ =~= text@.subrange(0, text@.len() as int));
        fields.set(i, QueryField { column: key, pattern });
        *text = Vec::new();
        assert(fields_view(fields@) =~= before.update(
            i as int,
            (key, before[i as int].1.push(' ') + old(text)@),
        ));
    } else {
        assert(find_field(before, key, 0) == -1);
        let mut taken: Vec<char> = Vec::new();
        std::mem::swap(text, &mut taken);
        fields.push(QueryField { column: key, pattern: taken });
        assert(fields_view(fields@) =~= before.push((key, old(text)@)));
    }
    *field = None;
}

} // verus!
