//! Escaping of text for HTML text content.

use vstd::prelude::*;

verus! {

/// The entity that stands for `&`.
pub open spec fn amp_entity() -> Seq<char> {
    seq!['&', 'a', 'm', 'p', ';']
}

/// The entity that stands for `<`.
pub open spec fn lt_entity() -> Seq<char> {
    seq!['&', 'l', 't', ';']
}

/// The entity that stands for `>`.
pub open spec fn gt_entity() -> Seq<char> {
    seq!['&', 'g', 't', ';']
}

/// What stands for one character in HTML text content.
pub open spec fn escaped_char(c: char) -> Seq<char> {
    if c == '&' {
        amp_entity()
    } else if c == '<' {
        lt_entity()
    } else if c == '>' {
        gt_entity()
    } else {
        seq![c]
    }
}

/// `text` with each character replaced by what stands for it.
pub open spec fn escaped(text: Seq<char>) -> Seq<char>
    decreases text.len(),
{
    if text.len() == 0 {
        Seq::empty()
    } else {
        escaped_char(text.first()) + escaped(text.drop_first())
    }
}

/// Escaped text read back: each entity gives the character it stands for, and
/// every other character gives itself.
pub open spec fn unescaped(html: Seq<char>) -> Seq<char>
    decreases html.len(),
{
    if html.len() == 0 {
        Seq::empty()
    } else if amp_entity().is_prefix_of(html) {
        seq!['&'] + unescaped(html.skip(5))
    } else if lt_entity().is_prefix_of(html) {
        seq!['<'] + unescaped(html.skip(4))
    } else if gt_entity().is_prefix_of(html) {
        seq!['>'] + unescaped(html.skip(4))
    } else {
        seq![html.first()] + unescaped(html.drop_first())
    }
}

/// Whether one of the three entities starts at position `i` of `html`.
pub open spec fn entity_at(html: Seq<char>, i: int) -> bool {
    ||| amp_entity().is_prefix_of(html.skip(i))
    ||| lt_entity().is_prefix_of(html.skip(i))
    ||| gt_entity().is_prefix_of(html.skip(i))
}

/// Whether `html` holds no `<`, no `>`, and no `&` but at the start of one of
/// the three entities.
pub open spec fn is_escaped(html: Seq<char>) -> bool {
    forall|i: int|
        0 <= i < html.len() ==> {
            &&& #[trigger] html[i] != '<'
            &&& html[i] != '>'
            &&& (html[i] == '&' ==> entity_at(html, i))
        }
}

/// `text` with `to` in place of each occurrence of the character `from`.
pub open spec fn replaced_each(text: Seq<char>, from: char, to: Seq<char>) -> Seq<char>
    decreases text.len(),
{
    if text.len() == 0 {
        Seq::empty()
    } else {
        (if text.first() == from {
            to
        } else {
            seq![text.first()]
        }) + replaced_each(text.drop_first(), from, to)
    }
}

/// Escaping a text extended by one character extends the escaped text by what
/// stands for that character.
pub proof fn lemma_escaped_push(text: Seq<char>, c: char)
    ensures
        escaped(text.push(c)) == escaped(text) + escaped_char(c),
    decreases text.len(),
{
    if text.len() == 0 {
        assert(text.push(c).drop_first() =~= Seq::<char>::empty());
        assert(escaped(text.push(c)) =~= escaped_char(c) + escaped(Seq::<char>::empty()));
        assert(escaped(text.push(c)) =~= escaped(text) + escaped_char(c));
    } else {
        lemma_escaped_push(text.drop_first(), c);
        assert(text.push(c).drop_first() =~= text.drop_first().push(c));
        assert(escaped(text.push(c)) =~= escaped(text) + escaped_char(c));
    }
}

/// Two escaped texts joined are an escaped text.
pub proof fn lemma_is_escaped_concat(a: Seq<char>, b: Seq<char>)
    requires
        is_escaped(a),
        is_escaped(b),
    ensures
        is_escaped(a + b),
{
    let joined = a + b;
    assert forall|i: int| 0 <= i < joined.len() implies {
        &&& #[trigger] joined[i] != '<'
        &&& joined[i] != '>'
        &&& (joined[i] == '&' ==> entity_at(joined, i))
    } by {
        if i < a.len() {
            assert(joined[i] == a[i]);
            assert(joined.skip(i) =~= a.skip(i) + b);
        } else {
            assert(joined[i] == b[i - a.len()]);
            assert(joined.skip(i) =~= b.skip(i - a.len()));
        }
    }
}

/// Escaped text holds no `<`, no `>`, and no `&` outside the entities that
/// escaping put there.
pub proof fn lemma_escaped_is_escaped(text: Seq<char>)
    ensures
        is_escaped(escaped(text)),
    decreases text.len(),
{
    if text.len() > 0 {
        let head = escaped_char(text.first());
        assert(is_escaped(head)) by {
            assert(head.skip(0) =~= head);
        }
        lemma_escaped_is_escaped(text.drop_first());
        lemma_is_escaped_concat(head, escaped(text.drop_first()));
    }
}

/// Reading back what stands for `c`, followed by any text, gives `c`, followed
/// by that text read back.
pub proof fn lemma_unescaped_char(c: char, rest: Seq<char>)
    ensures
        unescaped(escaped_char(c) + rest) == seq![c] + unescaped(rest),
{
    let html = escaped_char(c) + rest;
    if c == '&' {
        assert(html.skip(5) =~= rest);
    } else if c == '<' {
        assert(html[1] == 'l');
        assert(html.skip(4) =~= rest);
    } else if c == '>' {
        assert(html[1] == 'g');
        assert(html.skip(4) =~= rest);
    } else {
        assert(html[0] == c);
        assert(html.drop_first() =~= rest);
    }
}

/// Reading escaped text back gives the text that was escaped.
pub proof fn lemma_escape_round_trip(text: Seq<char>)
    ensures
        unescaped(escaped(text)) == text,
    decreases text.len(),
{
    if text.len() > 0 {
        lemma_escape_round_trip(text.drop_first());
        lemma_unescaped_char(text.first(), escaped(text.drop_first()));
        assert(seq![text.first()] + text.drop_first() =~= text);
    }
}

/// Replacing in two texts one after the other is replacing in them joined.
pub proof fn lemma_replaced_each_concat(a: Seq<char>, b: Seq<char>, from: char, to: Seq<char>)
    ensures
        replaced_each(a + b, from, to) == replaced_each(a, from, to) + replaced_each(b, from, to),
    decreases a.len(),
{
    if a.len() == 0 {
        assert(a + b =~= b);
        assert(replaced_each(a, from, to) + replaced_each(b, from, to) =~= replaced_each(
            b,
            from,
            to,
        ));
    } else {
        lemma_replaced_each_concat(a.drop_first(), b, from, to);
        assert((a + b).drop_first() =~= a.drop_first() + b);
        assert(replaced_each(a + b, from, to) =~= replaced_each(a, from, to) + replaced_each(
            b,
            from,
            to,
        ));
    }
}

/// A text without the character `from` is left as it is.
pub proof fn lemma_replaced_each_absent(text: Seq<char>, from: char, to: Seq<char>)
    requires
        forall|i: int| 0 <= i < text.len() ==> text[i] != from,
    ensures
        replaced_each(text, from, to) == text,
    decreases text.len(),
{
    if text.len() > 0 {
        assert(text.first() == text[0]);
        assert forall|i: int| 0 <= i < text.drop_first().len() implies text.drop_first()[i]
            != from by {
            assert(text.drop_first()[i] == text[i + 1]);
        }
        lemma_replaced_each_absent(text.drop_first(), from, to);
        assert(seq![text.first()] + text.drop_first() =~= text);
    } else {
        assert(replaced_each(text, from, to) =~= text);
    }
}

/// Replacing in a text of one character.
pub proof fn lemma_replaced_each_single(c: char, from: char, to: Seq<char>)
    ensures
        replaced_each(seq![c], from, to) == if c == from {
            to
        } else {
            seq![c]
        },
{
    let one = seq![c];
    assert(one.drop_first() =~= Seq::<char>::empty());
    assert(replaced_each(one.drop_first(), from, to) =~= Seq::<char>::empty());
    if c == from {
        assert(to + Seq::<char>::empty() =~= to);
    } else {
        assert(seq![one.first()] + Seq::<char>::empty() =~= one);
    }
}

/// Escaping is three replacements, one after the other: first `&`, then `<`,
/// then `>`. With `&` first, the entities that the later steps bring in are
/// not escaped again.
pub proof fn lemma_escaped_in_three_steps(text: Seq<char>)
    ensures
        escaped(text) == replaced_each(
            replaced_each(replaced_each(text, '&', amp_entity()), '<', lt_entity()),
            '>',
            gt_entity(),
        ),
    decreases text.len(),
{
    if text.len() > 0 {
        let c = text.first();
        let rest = text.drop_first();
        lemma_escaped_in_three_steps(rest);
        let head1 = if c == '&' {
            amp_entity()
        } else {
            seq![c]
        };
        let rest1 = replaced_each(rest, '&', amp_entity());
        assert(replaced_each(text, '&', amp_entity()) == head1 + rest1);
        lemma_replaced_each_concat(head1, rest1, '<', lt_entity());
        let head2 = replaced_each(head1, '<', lt_entity());
        let rest2 = replaced_each(rest1, '<', lt_entity());
        lemma_replaced_each_concat(head2, rest2, '>', gt_entity());
        let head3 = replaced_each(head2, '>', gt_entity());
        assert(head3 == escaped_char(c)) by {
            if c == '&' {
                lemma_replaced_each_absent(amp_entity(), '<', lt_entity());
                lemma_replaced_each_absent(amp_entity(), '>', gt_entity());
            } else if c == '<' {
                lemma_replaced_each_single(c, '<', lt_entity());
                lemma_replaced_each_absent(lt_entity(), '>', gt_entity());
            } else if c == '>' {
                lemma_replaced_each_single(c, '<', lt_entity());
                lemma_replaced_each_single(c, '>', gt_entity());
            } else {
                lemma_replaced_each_absent(seq![c], '<', lt_entity());
                lemma_replaced_each_absent(seq![c], '>', gt_entity());
            }
        }
    }
}

/// Escapes `&`, `<` and `>`, in that order, so that the text can stand in HTML
/// text content: `&` becomes `&amp;`, `<` becomes `&lt;`, `>` becomes `&gt;`.
pub fn escape(s: &str) -> (r: String)
    ensures
        r@ == escaped(s@),
        r@ == replaced_each(
            replaced_each(replaced_each(s@, '&', amp_entity()), '<', lt_entity()),
            '>',
            gt_entity(),
        ),
        is_escaped(r@),
        unescaped(r@) == s@,
{
    let mut out = String::new();
    let chars = s.chars();
    for c in it: chars
        invariant
            it.seq() == s@,
            out@ == escaped(s@.take(it.index())),
    {
        proof {
            reveal_strlit("&amp;");
            reveal_strlit("&lt;");
            reveal_strlit("&gt;");
            assert("&amp;"@ =~= amp_entity());
            assert("&lt;"@ =~= lt_entity());
            assert("&gt;"@ =~= gt_entity());
            lemma_escaped_push(s@.take(it.index()), c);
            assert(s@.take(it.index() + 1) =~= s@.take(it.index()).push(c));
        }
        if c == '&' {
            out.append("&amp;");
        } else if c == '<' {
            out.append("&lt;");
        } else if c == '>' {
            out.append("&gt;");
        } else {
            out.push(c);
        }
    }
    proof {
        assert(s@.take(s@.len() as int) =~= s@);
        lemma_escaped_in_three_steps(s@);
        lemma_escaped_is_escaped(s@);
        lemma_escape_round_trip(s@);
    }
    out
}

} // verus!
