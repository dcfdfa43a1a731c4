//! The forms in which a key is written, and that reading gives the key back.

use vstd::prelude::*;

use crate::encoding::{
    armours, base64_char, hex_round_trip, hex_text, hex_value, lemma_hex_digest_text,
};
use crate::keys::parse::{
    big_endian, curve_key, curve_label, headed_by, key_in_text, openssh_key, opens_block, pem_body,
    pkcs8_ed25519, pkcs8_x25519, spki_ed25519, spki_x25519, ssh_blob_key, ssh_ed25519, ssh_string,
};
use crate::text::{
    begins_with, end_trimmed, is_white, one_of, pieces, start_trimmed, trimmed, white_space, words,
};

verus! {

/// Nothing but white space.
pub open spec fn blank(s: Seq<char>) -> bool {
    forall|i: int| 0 <= i < s.len() ==> is_white(#[trigger] s[i])
}

/// No white space at all.
spec fn solid(s: Seq<char>) -> bool {
    forall|i: int| 0 <= i < s.len() ==> !is_white(#[trigger] s[i])
}

/// No white space at either end.
spec fn closed_off(s: Seq<char>) -> bool {
    s.len() > 0 && !is_white(s[0]) && !is_white(s.last())
}

/// A PEM block: its first line, the text, and its last line.
pub open spec fn pem_text(label: Seq<char>, body: Seq<char>) -> Seq<char> {
    "-----BEGIN "@ + label + "-----"@ + "\n"@ + body + "\n"@ + "-----END "@ + label + "-----"@
}

/// The DER documents that hold a key: the key itself, or the key behind one of the
/// known headers.
pub open spec fn der_of(der: Seq<u8>, key: Seq<u8>) -> bool {
    ||| der == key
    ||| der == spki_x25519() + key
    ||| der == spki_ed25519() + key
    ||| der == pkcs8_x25519() + key
    ||| der == pkcs8_ed25519() + key
}

/// The SSH wire format of a key: the algorithm's name and the key, each behind its
/// length.
pub open spec fn ssh_blob(key: Seq<u8>) -> Seq<u8> {
    seq![0u8, 0, 0, 11] + ssh_ed25519() + seq![0u8, 0, 0, 32] + key
}

/// An OpenSSH public-key line, with a comment or without.
pub open spec fn openssh_text(body: Seq<char>, comment: Seq<char>) -> Seq<char> {
    "ssh-ed25519"@ + " "@ + body + (if comment.len() == 0 {
        Seq::empty()
    } else {
        " "@ + comment
    })
}

proof fn lemma_start_trimmed_blank(before: Seq<char>, s: Seq<char>)
    requires
        blank(before),
        s.len() > 0,
        !is_white(s[0]),
    ensures
        start_trimmed(before + s) == s,
    decreases before.len(),
{
    let all = before + s;
    if before.len() == 0 {
        assert(all =~= s);
    } else {
        assert(is_white(before[0]));
        assert(all[0] == before[0]);
        let rest = before.skip(1);
        assert forall|i: int| 0 <= i < rest.len() implies is_white(#[trigger] rest[i]) by {
            assert(rest[i] == before[i + 1]);
        }
        assert(all.skip(1) =~= rest + s);
        lemma_start_trimmed_blank(rest, s);
    }
}

proof fn lemma_end_trimmed_blank(s: Seq<char>, after: Seq<char>)
    requires
        blank(after),
        s.len() > 0,
        !is_white(s.last()),
    ensures
        end_trimmed(s + after) == s,
    decreases after.len(),
{
    let all = s + after;
    if after.len() == 0 {
        assert(all =~= s);
    } else {
        assert(is_white(after[after.len() - 1]));
        assert(all.last() == after.last());
        let rest = after.drop_last();
        assert forall|i: int| 0 <= i < rest.len() implies is_white(#[trigger] rest[i]) by {
            assert(rest[i] == after[i]);
        }
        assert(all.drop_last() =~= s + rest);
        lemma_end_trimmed_blank(s, rest);
    }
}

/// White space around a text is trimmed off.
proof fn lemma_trimmed_around(before: Seq<char>, s: Seq<char>, after: Seq<char>)
    requires
        blank(before),
        blank(after),
        closed_off(s),
    ensures
        trimmed(before + s + after) == s,
{
    assert(before + s + after =~= before + (s + after));
    assert((s + after)[0] == s[0]);
    lemma_start_trimmed_blank(before, s + after);
    lemma_end_trimmed_blank(s, after);
}

proof fn lemma_trimmed_self(s: Seq<char>)
    requires
        s.len() == 0 || closed_off(s),
    ensures
        trimmed(s) == s,
{
    assert(start_trimmed(s) == s);
    assert(end_trimmed(s) == s);
}

proof fn lemma_one_piece(s: Seq<char>, separates: spec_fn(char) -> bool)
    requires
        forall|i: int| 0 <= i < s.len() ==> !separates(#[trigger] s[i]),
    ensures
        pieces(s, separates) == seq![s],
    decreases s.len(),
{
    if s.len() == 0 {
        assert(s =~= Seq::empty());
    } else {
        let front = s.drop_last();
        assert forall|i: int| 0 <= i < front.len() implies !separates(#[trigger] front[i]) by {
            assert(front[i] == s[i]);
        }
        lemma_one_piece(front, separates);
        assert(!separates(s[s.len() - 1]));
        assert(front.push(s.last()) =~= s);
        assert(pieces(s, separates) =~= seq![s]);
    }
}

/// A separator parts a text into the pieces before it and those behind it.
proof fn lemma_pieces_join(a: Seq<char>, c: char, b: Seq<char>, separates: spec_fn(char) -> bool)
    requires
        separates(c),
    ensures
        pieces(a + seq![c] + b, separates) == pieces(a, separates) + pieces(b, separates),
        pieces(b, separates).len() > 0,
    decreases b.len(),
{
    let all = a + seq![c] + b;
    if b.len() == 0 {
        assert(all.drop_last() =~= a);
        assert(all.last() == c);
        assert(b =~= Seq::empty());
        assert(pieces(all, separates) =~= pieces(a, separates) + pieces(b, separates));
    } else {
        let front = b.drop_last();
        lemma_pieces_join(a, c, front, separates);
        assert(all.drop_last() =~= a + seq![c] + front);
        assert(all.last() == b.last());
        assert(pieces(all, separates) =~= pieces(a, separates) + pieces(b, separates));
    }
}

proof fn lemma_single_word(a: Seq<char>)
    requires
        a.len() > 0,
        solid(a),
    ensures
        pieces(a, white_space()) == seq![a],
        seq![a].filter(|piece: Seq<char>| piece.len() > 0) == seq![a],
{
    let separates = white_space();
    assert forall|i: int| 0 <= i < a.len() implies !separates(#[trigger] a[i]) by {}
    lemma_one_piece(a, separates);
    let counts = |piece: Seq<char>| piece.len() > 0;
    reveal(Seq::filter);
    assert(seq![a].drop_last() =~= Seq::<Seq<char>>::empty());
    assert(seq![a].drop_last().filter(counts) =~= Seq::<Seq<char>>::empty());
    assert(counts(seq![a].last()));
    assert(seq![a].filter(counts) =~= seq![a]);
}

/// The first two words of a text.
proof fn lemma_two_words(a: Seq<char>, b: Seq<char>, rest: Seq<char>)
    requires
        a.len() > 0,
        solid(a),
        b.len() > 0,
        solid(b),
        rest.len() == 0 || is_white(rest[0]),
    ensures
        words(a + " "@ + b + rest).len() >= 2,
        words(a + " "@ + b + rest)[0] == a,
        words(a + " "@ + b + rest)[1] == b,
{
    reveal_strlit(" ");
    let separates = white_space();
    let counts = |piece: Seq<char>| piece.len() > 0;
    let line = a + " "@ + b + rest;
    assert(" "@ =~= seq![' ']);
    lemma_single_word(a);
    lemma_single_word(b);
    let tail = b + rest;
    assert(line =~= a + seq![' '] + tail);
    lemma_pieces_join(a, ' ', tail, separates);
    let end: Seq<Seq<char>> = if rest.len() == 0 {
        Seq::empty()
    } else {
        pieces(rest.skip(1), separates)
    };
    assert(pieces(tail, separates) =~= seq![b] + end) by {
        if rest.len() == 0 {
            assert(tail =~= b);
        } else {
            assert(tail =~= b + seq![rest[0]] + rest.skip(1));
            lemma_pieces_join(b, rest[0], rest.skip(1), separates);
        }
    }
    Seq::filter_distributes_over_add(seq![a], seq![b] + end, counts);
    Seq::filter_distributes_over_add(seq![b], end, counts);
    let found = seq![a] + (seq![b] + end.filter(counts));
    assert(words(line) =~= found);
    assert(found[0] == a && found[1] == b);
}

/// A hexadecimal dump gives its key back, whatever white space is around it.
pub proof fn hex_form_gives_the_key(key: Seq<u8>, before: Seq<char>, after: Seq<char>)
    requires
        key.len() == 32,
        blank(before),
        blank(after),
    ensures
        key_in_text(before + hex_text(key) + after) == Some(key),
{
    let text = hex_text(key);
    hex_round_trip(key);
    lemma_hex_digest_text(key);
    assert forall|i: int| 0 <= i < text.len() implies !is_white(#[trigger] text[i]) by {
        assert(hex_value(text[i]) is Some);
    }
    lemma_trimmed_around(before, text, after);
    reveal_strlit("-----BEGIN ");
    assert(!begins_with(text, "-----BEGIN "@)) by {
        assert(hex_value(text[0]) is Some);
        if begins_with(text, "-----BEGIN "@) {
            assert(text.take("-----BEGIN "@.len() as int)[0] == text[0]);
        }
    }
    lemma_single_word(text);
    assert(words(text) == seq![text]);
    assert(openssh_key(text) is None);
}

proof fn lemma_der_of(der: Seq<u8>, key: Seq<u8>)
    requires
        key.len() == 32,
        der_of(der, key),
    ensures
        curve_key(der) == Some(key),
{
    if der != key {
        let header = if der == spki_x25519() + key {
            spki_x25519()
        } else if der == spki_ed25519() + key {
            spki_ed25519()
        } else if der == pkcs8_x25519() + key {
            pkcs8_x25519()
        } else {
            pkcs8_ed25519()
        };
        assert(der.take(header.len() as int) =~= header);
        assert(der.skip(header.len() as int) =~= key);
        assert(headed_by(der, header));
    }
}

/// The labels hold no line break.
proof fn lemma_label_is_one_line(label: Seq<char>)
    requires
        curve_label(label),
    ensures
        !label.contains('\n'),
{
    reveal_strlit("PUBLIC KEY");
    reveal_strlit("PRIVATE KEY");
    reveal_strlit("ED25519 PUBLIC KEY");
    reveal_strlit("ED25519 PRIVATE KEY");
    reveal_strlit("X25519 PUBLIC KEY");
    reveal_strlit("X25519 PRIVATE KEY");
}

proof fn lemma_pem_lines(label: Seq<char>, body: Seq<char>)
    requires
        curve_label(label),
        forall|i: int| 0 <= i < body.len() ==> base64_char(#[trigger] body[i]),
    ensures
        pieces(pem_text(label, body), one_of(seq!['\n'])) == seq![
            "-----BEGIN "@ + label + "-----"@,
            body,
            "-----END "@ + label + "-----"@,
        ],
{
    reveal_strlit("-----BEGIN ");
    reveal_strlit("-----END ");
    reveal_strlit("-----");
    reveal_strlit("\n");
    let separates = one_of(seq!['\n']);
    let first = "-----BEGIN "@ + label + "-----"@;
    let last = "-----END "@ + label + "-----"@;
    lemma_label_is_one_line(label);
    assert(seq!['\n'][0] == '\n');
    assert forall|i: int| 0 <= i < first.len() implies !separates(#[trigger] first[i]) by {
        if 11 <= i < 11 + label.len() {
            assert(first[i] == label[i - 11]);
            assert(label.contains(label[i - 11]));
        }
    }
    assert forall|i: int| 0 <= i < last.len() implies !separates(#[trigger] last[i]) by {
        if 9 <= i < 9 + label.len() {
            assert(last[i] == label[i - 9]);
            assert(label.contains(label[i - 9]));
        }
    }
    assert forall|i: int| 0 <= i < body.len() implies !separates(#[trigger] body[i]) by {
        assert(base64_char(body[i]));
    }
    lemma_one_piece(first, separates);
    lemma_one_piece(body, separates);
    lemma_one_piece(last, separates);
    assert("\n"@ =~= seq!['\n']);
    let tail = body + seq!['\n'] + last;
    assert(pem_text(label, body) =~= first + seq!['\n'] + tail);
    lemma_pieces_join(first, '\n', tail, separates);
    lemma_pieces_join(body, '\n', last, separates);
    assert(seq![first] + (seq![body] + seq![last]) =~= seq![first, body, last]);
}

/// A PEM block gives its key back, whatever white space is around it.
pub proof fn pem_form_gives_the_key(
    key: Seq<u8>,
    der: Seq<u8>,
    label: Seq<char>,
    body: Seq<char>,
    before: Seq<char>,
    after: Seq<char>,
)
    requires
        key.len() == 32,
        der_of(der, key),
        curve_label(label),
        armours(body, der),
        blank(before),
        blank(after),
    ensures
        key_in_text(before + pem_text(label, body) + after) == Some(key),
{
    reveal_strlit("-----BEGIN ");
    reveal_strlit("-----END ");
    reveal_strlit("-----");
    reveal_strlit("\n");
    let text = pem_text(label, body);
    let first = "-----BEGIN "@ + label + "-----"@;
    let last = "-----END "@ + label + "-----"@;
    assert(text[0] == '-');
    assert(text.last() == '-');
    lemma_trimmed_around(before, text, after);
    assert(text.take(11) =~= "-----BEGIN "@);
    lemma_pem_lines(label, body);
    let lines = seq![first, body, last];
    assert(first[0] == '-' && first.last() == '-');
    lemma_trimmed_self(first);
    assert(last[0] == '-' && last.last() == '-');
    lemma_trimmed_self(last);
    if body.len() > 0 {
        assert(base64_char(body[0]));
        assert(base64_char(body[body.len() - 1]));
    }
    lemma_trimmed_self(body);
    assert(begins_with(first, "-----BEGIN "@)) by {
        assert(first.take(11) =~= "-----BEGIN "@);
    }
    assert(opens_block(first)) by {
        let rest = first.skip(11);
        assert(rest =~= label + "-----"@);
        assert(rest.skip(rest.len() - 5) =~= "-----"@);
        assert(rest.take(rest.len() - 5) =~= label);
    }
    assert(!begins_with(body, "-----BEGIN "@)) by {
        if begins_with(body, "-----BEGIN "@) {
            assert(body.take(11)[0] == body[0]);
        }
    }
    assert(!begins_with(body, "-----END "@)) by {
        if begins_with(body, "-----END "@) {
            assert(body.take(9)[0] == body[0]);
        }
    }
    assert(!begins_with(last, "-----BEGIN "@)) by {
        if begins_with(last, "-----BEGIN "@) {
            assert(last.take(11)[5] == last[5]);
        }
    }
    assert(begins_with(last, "-----END "@)) by {
        assert(last.take(9) =~= "-----END "@);
    }
    let none = Seq::<char>::empty();
    assert(pem_body(lines, 2, true, none + body) == Some(none + body));
    assert(pem_body(lines, 1, true, none) == Some(none + body));
    assert(pem_body(lines, 0, false, none) == Some(none + body));
    assert(none + body =~= body);
    lemma_der_of(der, key);
}

proof fn lemma_ssh_blob(key: Seq<u8>)
    requires
        key.len() == 32,
    ensures
        ssh_blob_key(ssh_blob(key)) == Some(key),
{
    let data = ssh_blob(key);
    assert(data.len() == 51);
    assert(data.subrange(0, 4) =~= seq![0u8, 0, 0, 11]);
    assert(big_endian(data.subrange(0, 4)) == 11);
    assert(data.subrange(4, 15) =~= ssh_ed25519());
    assert(ssh_string(data, 0) == Some((ssh_ed25519(), 15int)));
    assert(data.subrange(15, 19) =~= seq![0u8, 0, 0, 32]);
    assert(big_endian(data.subrange(15, 19)) == 32);
    assert(data.subrange(19, 51) =~= key);
    assert(ssh_string(data, 15) == Some((key, 51int)));
}

/// An OpenSSH public-key line gives its key back, whatever its comment and whatever
/// white space is around it.
pub proof fn openssh_form_gives_the_key(
    key: Seq<u8>,
    body: Seq<char>,
    comment: Seq<char>,
    before: Seq<char>,
    after: Seq<char>,
)
    requires
        key.len() == 32,
        armours(body, ssh_blob(key)),
        comment.len() == 0 || !is_white(comment.last()),
        blank(before),
        blank(after),
    ensures
        key_in_text(before + openssh_text(body, comment) + after) == Some(key),
{
    reveal_strlit("ssh-ed25519");
    reveal_strlit(" ");
    reveal_strlit("-----BEGIN ");
    let text = openssh_text(body, comment);
    let rest = if comment.len() == 0 {
        Seq::empty()
    } else {
        " "@ + comment
    };
    assert(ssh_blob(key).len() == 51);
    assert(body.len() == 68);
    assert forall|i: int| 0 <= i < body.len() implies !is_white(#[trigger] body[i]) by {
        assert(base64_char(body[i]));
    }
    let name = "ssh-ed25519"@;
    assert(solid(name));
    assert(text[0] == 's');
    assert(!is_white(text.last())) by {
        if comment.len() == 0 {
            assert(text.last() == body[67]);
        } else {
            assert(text.last() == comment.last());
        }
    }
    lemma_trimmed_around(before, text, after);
    assert(!begins_with(text, "-----BEGIN "@)) by {
        if begins_with(text, "-----BEGIN "@) {
            assert(text.take(11)[0] == text[0]);
        }
    }
    lemma_two_words(name, body, rest);
    lemma_ssh_blob(key);
}

} // verus!
