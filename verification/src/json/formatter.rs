//! Json Formatter: can call `dump()`, returns string of formatted json token.
use super::render::{quoted, render};
use super::token::{lemma_array_view, lemma_object_view, members_of, values_of, Json, Value};
use vstd::prelude::*;

verus! {

/// A way to write a token as text.
pub trait Formatter {
    type Token;

    /// The text that this formatter writes for `token`.
    spec fn dump_text(&self, token: &Self::Token) -> Seq<char>;

    /// Writes `token` as text.
    fn dump(&self, token: &Self::Token) -> (text: String)
        ensures
            text@ == self.dump_text(token),
    ;
}

/// The compact form, on one line.
pub struct RawJson {}

impl Formatter for RawJson {
    type Token = Json;

    open spec fn dump_text(&self, token: &Json) -> Seq<char> {
        render(token@)
    }

    fn dump(&self, token: &Json) -> (text: String) {
        token.render()
    }
}

/// A tree over several lines. An array or object opens on the line of its
/// parent; each element or member stands on a line of its own, one `indent`
/// deeper than `prefix`, the indentation of the parent; the closing bracket
/// stands on a line of its own at the depth of the parent. Anything else is
/// written in its compact form.
pub open spec fn pretty(value: Value, indent: Seq<char>, prefix: Seq<char>) -> Seq<char>
    decreases value, 0nat,
{
    match value {
        Value::Array(items) => seq!['[', '\n'] + pretty_items(items, indent, prefix + indent)
            + seq!['\n'] + prefix + seq![']'],
        Value::Object(members) => seq!['{', '\n'] + pretty_members(
            members,
            indent,
            prefix + indent,
        ) + seq!['\n'] + prefix + seq!['}'],
        _ => render(value),
    }
}

/// The elements `items`, each on a line that begins with `prefix`, with a
/// comma at the end of each line but the last.
pub open spec fn pretty_items(items: Seq<Value>, indent: Seq<char>, prefix: Seq<char>) -> Seq<char>
    decreases items, 1nat,
{
    if items.len() == 0 {
        Seq::empty()
    } else if items.len() == 1 {
        prefix + pretty(items.last(), indent, prefix)
    } else {
        pretty_items(items.drop_last(), indent, prefix) + seq![',', '\n'] + prefix + pretty(
            items.last(),
            indent,
            prefix,
        )
    }
}

/// One member: the key between quotes, a colon, a space, and the value.
pub open spec fn pretty_member(member: (Seq<char>, Value), indent: Seq<char>, prefix: Seq<char>)
    -> Seq<char>
    decreases member, 0nat,
{
    prefix + quoted(member.0) + seq![':', ' '] + pretty(member.1, indent, prefix)
}

/// The members `members`, each on a line that begins with `prefix`, with a
/// comma at the end of each line but the last.
pub open spec fn pretty_members(
    members: Seq<(Seq<char>, Value)>,
    indent: Seq<char>,
    prefix: Seq<char>,
) -> Seq<char>
    decreases members, 1nat,
{
    if members.len() == 0 {
        Seq::empty()
    } else if members.len() == 1 {
        pretty_member(members.last(), indent, prefix)
    } else {
        pretty_members(members.drop_last(), indent, prefix) + seq![',', '\n'] + pretty_member(
            members.last(),
            indent,
            prefix,
        )
    }
}

/// The tree over several lines, indented by `indent` for each level.
pub struct PrettyJson<'a> {
    pub indent: &'a str,
}

impl<'a> PrettyJson<'a> {
    /// Appends `token` to `s`, as a child of a tree whose lines begin with
    /// `prefix`.
    fn prettified(&self, s: &mut String, token: &Json, prefix: &str)
        ensures
            final(s)@ == old(s)@ + pretty(token@, self.indent@, prefix@),
        decreases token,
    {
        match token {
            Json::Array(tokens) => {
                proof {
                    lemma_array_view(*token);
                }
                let inner = self.indented(prefix);
                let ghost trees = values_of(tokens@);
                s.push('[');
                s.push('\n');
                let ghost before = s@;
                let mut i: usize = 0;
                assert(trees.take(0) =~= Seq::<Value>::empty());
                assert(s@ =~= before + pretty_items(trees.take(0), self.indent@, inner@));
                while i < tokens.len()
                    invariant
                        i <= tokens.len(),
                        *token == Json::Array(*tokens),
                        trees == values_of(tokens@),
                        s@ == before + pretty_items(trees.take(i as int), self.indent@, inner@),
                    decreases tokens.len() - i,
                {
                    if i > 0 {
                        s.push(',');
                        s.push('\n');
                    }
                    s.append(inner.as_str());
                    assert(decreases_to!(token => token->Array_0@[i as int]));
                    self.prettified(s, &tokens[i], inner.as_str());
                    proof {
                        assert(trees.take(i + 1).drop_last() =~= trees.take(i as int));
                        assert(trees.take(i + 1).last() == tokens@[i as int]@);
                        assert(s@ =~= before + pretty_items(
                            trees.take(i + 1),
                            self.indent@,
                            inner@,
                        ));
                    }
                    i += 1;
                }
                assert(trees.take(tokens.len() as int) =~= trees);
                s.push('\n');
                s.append(prefix);
                s.push(']');
                assert(s@ =~= old(s)@ + pretty(token@, self.indent@, prefix@));
            },
            Json::Object(pairs) => {
                proof {
                    lemma_object_view(*token);
                }
                let inner = self.indented(prefix);
                let ghost trees = members_of(pairs@);
                s.push('{');
                s.push('\n');
                let ghost before = s@;
                let mut i: usize = 0;
                assert(trees.take(0) =~= Seq::<(Seq<char>, Value)>::empty());
                assert(s@ =~= before + pretty_members(trees.take(0), self.indent@, inner@));
                while i < pairs.len()
                    invariant
                        i <= pairs.len(),
                        *token == Json::Object(*pairs),
                        trees == members_of(pairs@),
                        s@ == before + pretty_members(trees.take(i as int), self.indent@, inner@),
                    decreases pairs.len() - i,
                {
                    if i > 0 {
                        s.push(',');
                        s.push('\n');
                    }
                    let ghost line = s@;
                    s.append(inner.as_str());
                    s.push('"');
                    s.append(pairs[i].0.as_str());
                    s.push('"');
                    s.push(':');
                    s.push(' ');
                    assert(decreases_to!(token => token->Object_0@[i as int].1));
                    self.prettified(s, &pairs[i].1, inner.as_str());
                    proof {
                        assert(trees.take(i + 1).drop_last() =~= trees.take(i as int));
                        assert(trees.take(i + 1).last() == (pairs@[i as int].0@, pairs@[i as int].1@));
                        assert(s@ =~= line + pretty_member(
                            trees.take(i + 1).last(),
                            self.indent@,
                            inner@,
                        ));
                        assert(s@ =~= before + pretty_members(
                            trees.take(i + 1),
                            self.indent@,
                            inner@,
                        ));
                    }
                    i += 1;
                }
                assert(trees.take(pairs.len() as int) =~= trees);
                s.push('\n');
                s.append(prefix);
                s.push('}');
                assert(s@ =~= old(s)@ + pretty(token@, self.indent@, prefix@));
            },
            _ => {
                token.render_into(s);
            },
        }
    }

    /// The indentation one level deeper than `prefix`.
    fn indented(&self, prefix: &str) -> (inner: String)
        ensures
            inner@ == prefix@ + self.indent@,
    {
        let mut inner = prefix.to_owned();
        inner.append(self.indent);
        inner
    }
}

impl<'a> Formatter for PrettyJson<'a> {
    type Token = Json;

    open spec fn dump_text(&self, token: &Json) -> Seq<char> {
        pretty(token@, self.indent@, Seq::empty())
    }

    fn dump(&self, token: &Json) -> (text: String) {
        proof {
            reveal_strlit("");
            assert(""@ =~= Seq::<char>::empty());
        }
        let mut string = String::new();
        self.prettified(&mut string, token, "");
        assert(string@ =~= pretty(token@, self.indent@, Seq::empty()));
        string
    }
}

/// The compact texts of `items`, one on each line.
pub open spec fn table_rows(items: Seq<Value>) -> Seq<char>
    decreases items.len(),
{
    if items.len() == 0 {
        Seq::empty()
    } else if items.len() == 1 {
        render(items.last())
    } else {
        table_rows(items.drop_last()) + seq!['\n'] + render(items.last())
    }
}

/// One line for each of `members`: the key, a tab, and the compact text of
/// the value.
pub open spec fn table_pairs(members: Seq<(Seq<char>, Value)>) -> Seq<char>
    decreases members.len(),
{
    if members.len() == 0 {
        Seq::empty()
    } else if members.len() == 1 {
        members.last().0 + seq!['\t'] + render(members.last().1)
    } else {
        table_pairs(members.drop_last()) + seq!['\n'] + members.last().0 + seq!['\t'] + render(
            members.last().1,
        )
    }
}

/// A table: an array with one element on each line, an object with one
/// member on each line; anything else in its compact form.
pub open spec fn table(value: Value) -> Seq<char> {
    match value {
        Value::Array(items) => table_rows(items),
        Value::Object(members) => table_pairs(members),
        _ => render(value),
    }
}

/// One line for each element or member.
pub struct TableJson {}

impl Formatter for TableJson {
    type Token = Json;

    open spec fn dump_text(&self, token: &Json) -> Seq<char> {
        table(token@)
    }

    fn dump(&self, token: &Json) -> (text: String) {
        match token {
            Json::Array(array) => {
                proof {
                    lemma_array_view(*token);
                }
                let ghost trees = values_of(array@);
                let mut string = String::new();
                let mut i: usize = 0;
                assert(trees.take(0) =~= Seq::<Value>::empty());
                assert(string@ =~= table_rows(trees.take(0)));
                while i < array.len()
                    invariant
                        i <= array.len(),
                        trees == values_of(array@),
                        string@ == table_rows(trees.take(i as int)),
                    decreases array.len() - i,
                {
                    if i > 0 {
                        string.push('\n');
                    }
                    array[i].render_into(&mut string);
                    proof {
                        assert(trees.take(i + 1).drop_last() =~= trees.take(i as int));
                        assert(trees.take(i + 1).last() == array@[i as int]@);
                        assert(string@ =~= table_rows(trees.take(i + 1)));
                    }
                    i += 1;
                }
                assert(trees.take(array.len() as int) =~= trees);
                string
            },
            Json::Object(map) => {
                proof {
                    lemma_object_view(*token);
                }
                let ghost trees = members_of(map@);
                let mut string = String::new();
                let mut i: usize = 0;
                assert(trees.take(0) =~= Seq::<(Seq<char>, Value)>::empty());
                assert(string@ =~= table_pairs(trees.take(0)));
                while i < map.len()
                    invariant
                        i <= map.len(),
                        trees == members_of(map@),
                        string@ == table_pairs(trees.take(i as int)),
                    decreases map.len() - i,
                {
                    if i > 0 {
                        string.push('\n');
                    }
                    string.append(map[i].0.as_str());
                    string.push('\t');
                    map[i].1.render_into(&mut string);
                    proof {
                        assert(trees.take(i + 1).drop_last() =~= trees.take(i as int));
                        assert(trees.take(i + 1).last() == (map@[i as int].0@, map@[i as int].1@));
                        assert(string@ =~= table_pairs(trees.take(i + 1)));
                    }
                    i += 1;
                }
                assert(trees.take(map.len() as int) =~= trees);
                string
            },
            _ => token.render(),
        }
    }
}

} // verus!
