//! What a tracker reads in the URL of an announce.

use vstd::prelude::*;

use crate::text::{decimal, digit};
use crate::tracker::http::{event_text, hex_digit, percent_encoded, query, separator, unreserved};
use crate::tracker::laws::{
    encoded_in_front, percent_decoded, percent_encoding_round_trips,
};
use crate::tracker::AnnounceEvent;

verus! {

/// The first place of `c` in a text, or its end.
pub open spec fn cut(text: Seq<char>, c: char) -> int
    decreases text.len(),
{
    if text.len() == 0 || text[0] == c {
        0
    } else {
        1 + cut(text.drop_first(), c)
    }
}

/// The name and the value of a parameter: what stands before the first `=` and behind it.
pub open spec fn pair(field: Seq<char>) -> (Seq<char>, Seq<char>) {
    let e = cut(field, '=');
    if e < field.len() {
        (field.take(e), field.skip(e + 1))
    } else {
        (field, Seq::empty())
    }
}

/// The parameters of a query, which stand between `&` signs.
pub open spec fn parameters(text: Seq<char>) -> Seq<(Seq<char>, Seq<char>)>
    decreases text.len(),
{
    let k = cut(text, '&');
    if 0 <= k < text.len() {
        seq![pair(text.take(k))] + parameters(text.skip(k + 1))
    } else {
        seq![pair(text)]
    }
}

/// Whether a character may stand for itself in a parameter.
pub open spec fn plain(c: char) -> bool {
    'A' <= c <= 'Z' || 'a' <= c <= 'z' || '0' <= c <= '9' || c == '-' || c == '_' || c == '.' || c
        == '~'
}

/// Whether a character is an upper-case hexadecimal digit.
pub open spec fn hexadecimal(c: char) -> bool {
    '0' <= c <= '9' || 'A' <= c <= 'F'
}

/// Whether a text consists of characters that stand for themselves and of percent signs with two
/// hexadecimal digits each.
pub open spec fn well_escaped(text: Seq<char>) -> bool
    decreases text.len(),
{
    if text.len() == 0 {
        true
    } else if text[0] == '%' {
        text.len() >= 3 && hexadecimal(text[1]) && hexadecimal(text[2]) && well_escaped(text.skip(3))
    } else {
        plain(text[0]) && well_escaped(text.skip(1))
    }
}

/// The number that a decimal numeral denotes.
pub open spec fn numeral_value(text: Seq<char>) -> int
    decreases text.len(),
{
    if text.len() == 0 {
        0
    } else {
        numeral_value(text.drop_last()) * 10 + (text.last() as int - '0' as int)
    }
}

/// Whether a text is the decimal numeral of `n`: digits only, without a leading zero.
pub open spec fn denotes(text: Seq<char>, n: nat) -> bool {
    &&& text.len() > 0
    &&& forall|k: int| 0 <= k < text.len() ==> '0' <= #[trigger] text[k] <= '9'
    &&& text.len() > 1 ==> text[0] != '0'
    &&& numeral_value(text) == n
}

/// Whether a parameter has a name and a value that is the decimal numeral of `n`.
pub open spec fn counts(p: (Seq<char>, Seq<char>), name: Seq<char>, n: nat) -> bool {
    p.0 == name && denotes(p.1, n)
}

/// Whether a parameter has a name and a value that consists of plain characters and escapes, and
/// that gives back the bytes.
pub open spec fn carries(p: (Seq<char>, Seq<char>), name: Seq<char>, bytes: Seq<u8>) -> bool {
    p.0 == name && well_escaped(p.1) && percent_decoded(p.1) == bytes
}

/// A tracker that takes the URL of an announce apart gets everything back: the URL of the
/// tracker, then a `?`, or an `&` if that URL has a query already, and then the parameters, whose
/// values between `=` and `&` are the bytes of the info hash and of the peer id and the numbers,
/// and the event by its name if there is one.
pub proof fn announce_urls_are_read_back(
    announce: Seq<char>,
    info_hash: Seq<u8>,
    peer_id: Seq<u8>,
    port: nat,
    downloaded: nat,
    left: nat,
    uploaded: nat,
    event: AnnounceEvent,
)
    ensures
        ({
            let url = announce + seq![separator(announce)] + query(
                info_hash,
                peer_id,
                port,
                downloaded,
                left,
                uploaded,
                event,
            );
            let n = announce.len() as int;
            let ps = parameters(url.skip(n + 1));
            &&& url.take(n) == announce
            &&& url[n] == if announce.contains('?') {
                '&'
            } else {
                '?'
            }
            &&& ps.len() == if event == AnnounceEvent::Periodic {
                8int
            } else {
                9
            }
            &&& carries(ps[0], "info_hash"@, info_hash)
            &&& carries(ps[1], "peer_id"@, peer_id)
            &&& counts(ps[2], "port"@, port)
            &&& counts(ps[3], "uploaded"@, uploaded)
            &&& counts(ps[4], "downloaded"@, downloaded)
            &&& counts(ps[5], "left"@, left)
            &&& counts(ps[6], "compact"@, 1)
            &&& counts(ps[7], "numwant"@, 50)
            &&& event == AnnounceEvent::Started ==> ps[8] == ("event"@, "started"@)
            &&& event == AnnounceEvent::Completed ==> ps[8] == ("event"@, "completed"@)
            &&& event == AnnounceEvent::Stopped ==> ps[8] == ("event"@, "stopped"@)
        }),
{
    let q = query(info_hash, peer_id, port, downloaded, left, uploaded, event);
    let url = announce + seq![separator(announce)] + q;
    let n = announce.len() as int;
    assert(url.take(n) =~= announce);
    assert(url.skip(n + 1) =~= q);
    percent_encoding_round_trips(info_hash);
    percent_encoding_round_trips(peer_id);
    encoding_is_escaped(info_hash);
    encoding_is_escaped(peer_id);
    numerals_denote(port);
    numerals_denote(uploaded);
    numerals_denote(downloaded);
    numerals_denote(left);
    query_is_read(info_hash, peer_id, port, downloaded, left, uploaded, event);
    last_fields(event);
    let fields = first_fields(info_hash, peer_id, port, downloaded, left, uploaded);
    let pt = parameters(event_fields(event));
    let ps = parameters(q);
    assert(ps == fields + pt);
    assert(ps[6] == pt[0]);
    assert(ps[7] == pt[1]);
    if event != AnnounceEvent::Periodic {
        assert(ps[8] == pt[2]);
    }
}

/// The parameters of every announce that differ from one to the other.
spec fn first_fields(
    info_hash: Seq<u8>,
    peer_id: Seq<u8>,
    port: nat,
    downloaded: nat,
    left: nat,
    uploaded: nat,
) -> Seq<(Seq<char>, Seq<char>)> {
    seq![
        ("info_hash"@, percent_encoded(info_hash)),
        ("peer_id"@, percent_encoded(peer_id)),
        ("port"@, decimal(port)),
        ("uploaded"@, decimal(uploaded)),
        ("downloaded"@, decimal(downloaded)),
        ("left"@, decimal(left)),
    ]
}

proof fn query_is_read(
    info_hash: Seq<u8>,
    peer_id: Seq<u8>,
    port: nat,
    downloaded: nat,
    left: nat,
    uploaded: nat,
    event: AnnounceEvent,
)
    ensures
        parameters(query(info_hash, peer_id, port, downloaded, left, uploaded, event))
            == first_fields(info_hash, peer_id, port, downloaded, left, uploaded) + parameters(
            event_fields(event),
        ),
{
    let hash = percent_encoded(info_hash);
    let id = percent_encoded(peer_id);
    let tail = event_fields(event);
    encoding_is_escaped(info_hash);
    encoding_is_escaped(peer_id);
    escapes_do_not_end(hash);
    escapes_do_not_end(id);
    numerals_denote(port);
    numerals_denote(uploaded);
    numerals_denote(downloaded);
    numerals_denote(left);
    numerals_do_not_end(decimal(port), port);
    numerals_do_not_end(decimal(uploaded), uploaded);
    numerals_do_not_end(decimal(downloaded), downloaded);
    numerals_do_not_end(decimal(left), left);
    literals();
    assert("&compact=1&numwant=50"@ + event_text(event) =~= seq!['&'] + tail);
    fields_are_joined(
        hash,
        id,
        decimal(port),
        decimal(uploaded),
        decimal(downloaded),
        decimal(left),
        "&compact=1&numwant=50"@,
        event_text(event),
        tail,
    );
    fields_are_read(
        hash,
        id,
        decimal(port),
        decimal(uploaded),
        decimal(downloaded),
        decimal(left),
        tail,
    );
}

/// Six parameters in front of others.
spec fn laid_out(
    a: Seq<char>,
    b: Seq<char>,
    c: Seq<char>,
    d: Seq<char>,
    e: Seq<char>,
    f: Seq<char>,
    tail: Seq<char>,
) -> Seq<char> {
    let amp = seq!['&'];
    let eq = seq!['='];
    "info_hash"@ + eq + a + amp + ("peer_id"@ + eq + b + amp + ("port"@ + eq + c + amp + (
    "uploaded"@ + eq + d + amp + ("downloaded"@ + eq + e + amp + ("left"@ + eq + f + amp + tail)))))
}

proof fn fields_are_joined(
    a: Seq<char>,
    b: Seq<char>,
    c: Seq<char>,
    d: Seq<char>,
    e: Seq<char>,
    f: Seq<char>,
    fixed: Seq<char>,
    ending: Seq<char>,
    tail: Seq<char>,
)
    requires
        fixed + ending == seq!['&'] + tail,
    ensures
        "info_hash="@ + a + "&peer_id="@ + b + "&port="@ + c + "&uploaded="@ + d + "&downloaded="@ + e
            + "&left="@ + f + fixed + ending == laid_out(a, b, c, d, e, f, tail),
{
    let amp = seq!['&'];
    let eq = seq!['='];
    literals();
    let y0 = "info_hash="@ + a;
    let y1 = y0 + "&peer_id="@ + b;
    let y2 = y1 + "&port="@ + c;
    let y3 = y2 + "&uploaded="@ + d;
    let y4 = y3 + "&downloaded="@ + e;
    let y5 = y4 + "&left="@ + f;
    let f5 = "left"@ + eq + f + amp + tail;
    let f4 = "downloaded"@ + eq + e + amp + f5;
    let f3 = "uploaded"@ + eq + d + amp + f4;
    let f2 = "port"@ + eq + c + amp + f3;
    let f1 = "peer_id"@ + eq + b + amp + f2;
    assert(y5 + fixed + ending =~= y5 + (fixed + ending));
    one_behind(y4, "&left="@, "left"@, f, tail);
    one_behind(y3, "&downloaded="@, "downloaded"@, e, f5);
    one_behind(y2, "&uploaded="@, "uploaded"@, d, f4);
    one_behind(y1, "&port="@, "port"@, c, f3);
    one_behind(y0, "&peer_id="@, "peer_id"@, b, f2);
    assert(y0 + (amp + f1) =~= "info_hash"@ + eq + a + amp + f1);
}

proof fn fields_are_read(
    a: Seq<char>,
    b: Seq<char>,
    c: Seq<char>,
    d: Seq<char>,
    e: Seq<char>,
    f: Seq<char>,
    tail: Seq<char>,
)
    requires
        unended(a),
        unended(b),
        unended(c),
        unended(d),
        unended(e),
        unended(f),
    ensures
        parameters(laid_out(a, b, c, d, e, f, tail)) == seq![
            ("info_hash"@, a),
            ("peer_id"@, b),
            ("port"@, c),
            ("uploaded"@, d),
            ("downloaded"@, e),
            ("left"@, f),
        ] + parameters(tail),
{
    let amp = seq!['&'];
    let eq = seq!['='];
    literals();
    let f5 = "left"@ + eq + f + amp + tail;
    let f4 = "downloaded"@ + eq + e + amp + f5;
    let f3 = "uploaded"@ + eq + d + amp + f4;
    let f2 = "port"@ + eq + c + amp + f3;
    let f1 = "peer_id"@ + eq + b + amp + f2;
    field_comes_off("info_hash"@, a, f1);
    field_comes_off("peer_id"@, b, f2);
    field_comes_off("port"@, c, f3);
    field_comes_off("uploaded"@, d, f4);
    field_comes_off("downloaded"@, e, f5);
    field_comes_off("left"@, f, tail);
    assert(parameters(laid_out(a, b, c, d, e, f, tail)) =~= seq![
        ("info_hash"@, a),
        ("peer_id"@, b),
        ("port"@, c),
        ("uploaded"@, d),
        ("downloaded"@, e),
        ("left"@, f),
    ] + parameters(tail));
}

/// Whether nothing in a text ends a parameter.
spec fn unended(text: Seq<char>) -> bool {
    forall|k: int| 0 <= k < text.len() ==> #[trigger] text[k] != '&'
}

/// A parameter behind others is the first of the rest.
proof fn one_behind(
    front: Seq<char>,
    literal: Seq<char>,
    name: Seq<char>,
    value: Seq<char>,
    rest: Seq<char>,
)
    requires
        literal == seq!['&'] + name + seq!['='],
    ensures
        (front + literal + value) + (seq!['&'] + rest) == front + (seq!['&'] + (name + seq!['='] + value
            + seq!['&'] + rest)),
{
    assert((front + literal + value) + (seq!['&'] + rest) =~= front + (seq!['&'] + (name + seq!['=']
        + value + seq!['&'] + rest)));
}

/// The last parameters.
spec fn event_fields(event: AnnounceEvent) -> Seq<char> {
    "compact=1&numwant=50"@ + match event {
        AnnounceEvent::Periodic => Seq::empty(),
        AnnounceEvent::Started => "&event=started"@,
        AnnounceEvent::Completed => "&event=completed"@,
        AnnounceEvent::Stopped => "&event=stopped"@,
    }
}

/// What the literals of a query consist of.
proof fn literals()
    ensures
        "info_hash="@ == "info_hash"@ + seq!['='],
        "&peer_id="@ == seq!['&'] + "peer_id"@ + seq!['='],
        "&port="@ == seq!['&'] + "port"@ + seq!['='],
        "&uploaded="@ == seq!['&'] + "uploaded"@ + seq!['='],
        "&downloaded="@ == seq!['&'] + "downloaded"@ + seq!['='],
        "&left="@ == seq!['&'] + "left"@ + seq!['='],
        "&compact=1&numwant=50"@ == seq!['&'] + "compact=1&numwant=50"@,
        "&event="@ + "started"@ == "&event=started"@,
        "&event="@ + "completed"@ == "&event=completed"@,
        "&event="@ + "stopped"@ == "&event=stopped"@,
        no_mark("info_hash"@),
        no_mark("peer_id"@),
        no_mark("port"@),
        no_mark("uploaded"@),
        no_mark("downloaded"@),
        no_mark("left"@),
{
    reveal_strlit("info_hash=");
    reveal_strlit("info_hash");
    reveal_strlit("&peer_id=");
    reveal_strlit("peer_id");
    reveal_strlit("&port=");
    reveal_strlit("port");
    reveal_strlit("&uploaded=");
    reveal_strlit("uploaded");
    reveal_strlit("&downloaded=");
    reveal_strlit("downloaded");
    reveal_strlit("&left=");
    reveal_strlit("left");
    reveal_strlit("&compact=1&numwant=50");
    reveal_strlit("compact=1&numwant=50");
    reveal_strlit("&event=");
    reveal_strlit("started");
    reveal_strlit("completed");
    reveal_strlit("stopped");
    reveal_strlit("&event=started");
    reveal_strlit("&event=completed");
    reveal_strlit("&event=stopped");
    assert("info_hash="@ =~= "info_hash"@ + seq!['=']);
    assert("&peer_id="@ =~= seq!['&'] + "peer_id"@ + seq!['=']);
    assert("&port="@ =~= seq!['&'] + "port"@ + seq!['=']);
    assert("&uploaded="@ =~= seq!['&'] + "uploaded"@ + seq!['=']);
    assert("&downloaded="@ =~= seq!['&'] + "downloaded"@ + seq!['=']);
    assert("&left="@ =~= seq!['&'] + "left"@ + seq!['=']);
    assert("&compact=1&numwant=50"@ =~= seq!['&'] + "compact=1&numwant=50"@);
    assert("&event="@ + "started"@ =~= "&event=started"@);
    assert("&event="@ + "completed"@ =~= "&event=completed"@);
    assert("&event="@ + "stopped"@ =~= "&event=stopped"@);
}

/// Whether neither `&` nor `=` is in a text.
spec fn no_mark(text: Seq<char>) -> bool {
    forall|k: int| 0 <= k < text.len() ==> #[trigger] text[k] != '&' && text[k] != '='
}

/// The last parameters are read back.
proof fn last_fields(event: AnnounceEvent)
    ensures
        ({
            let pt = parameters(event_fields(event));
            &&& pt.len() == if event == AnnounceEvent::Periodic {
                2int
            } else {
                3
            }
            &&& counts(pt[0], "compact"@, 1)
            &&& counts(pt[1], "numwant"@, 50)
            &&& event == AnnounceEvent::Started ==> pt[2] == ("event"@, "started"@)
            &&& event == AnnounceEvent::Completed ==> pt[2] == ("event"@, "completed"@)
            &&& event == AnnounceEvent::Stopped ==> pt[2] == ("event"@, "stopped"@)
        }),
{
    reveal_strlit("compact=1&numwant=50");
    reveal_strlit("compact");
    reveal_strlit("numwant");
    reveal_strlit("event");
    reveal_strlit("&event=started");
    reveal_strlit("&event=completed");
    reveal_strlit("&event=stopped");
    reveal_strlit("started");
    reveal_strlit("completed");
    reveal_strlit("stopped");
    let amp = seq!['&'];
    let eq = seq!['='];
    let one = seq!['1'];
    let fifty = seq!['5', '0'];
    reveal_with_fuel(numeral_value, 3);
    assert(one.drop_last() =~= Seq::empty());
    assert(fifty.drop_last() =~= seq!['5']);
    assert(fifty.drop_last().drop_last() =~= Seq::empty());
    assert(denotes(one, 1));
    assert(denotes(fifty, 50));
    let tail = event_fields(event);
    let name = match event {
        AnnounceEvent::Periodic => Seq::empty(),
        AnnounceEvent::Started => "started"@,
        AnnounceEvent::Completed => "completed"@,
        AnnounceEvent::Stopped => "stopped"@,
    };
    if event == AnnounceEvent::Periodic {
        let rest = "numwant"@ + eq + fifty;
        assert(tail =~= "compact"@ + eq + one + amp + rest);
        field_comes_off("compact"@, one, rest);
        last_field("numwant"@, fifty);
    } else {
        let last = "event"@ + eq + name;
        let rest = "numwant"@ + eq + fifty + amp + last;
        assert(tail =~= "compact"@ + eq + one + amp + rest);
        field_comes_off("compact"@, one, rest);
        field_comes_off("numwant"@, fifty, last);
        last_field("event"@, name);
    }
}

/// The first place is where the character stands first.
proof fn cut_is(text: Seq<char>, c: char, k: int)
    requires
        0 <= k <= text.len(),
        forall|j: int| 0 <= j < k ==> #[trigger] text[j] != c,
        k < text.len() ==> text[k] == c,
    ensures
        cut(text, c) == k,
    decreases text.len(),
{
    if k > 0 {
        let rest = text.drop_first();
        assert(text[0] != c);
        assert forall|j: int| 0 <= j < k - 1 implies #[trigger] rest[j] != c by {
            assert(rest[j] == text[j + 1]);
        }
        cut_is(rest, c, k - 1);
    }
}

/// A parameter in front of others is the first of them.
proof fn field_comes_off(name: Seq<char>, value: Seq<char>, rest: Seq<char>)
    requires
        no_mark(name),
        unended(value),
    ensures
        parameters(name + seq!['='] + value + seq!['&'] + rest) == seq![(name, value)] + parameters(
            rest,
        ),
{
    let field = name + seq!['='] + value;
    let text = field + seq!['&'] + rest;
    let k = field.len() as int;
    assert forall|j: int| 0 <= j < k implies #[trigger] text[j] != '&' by {
        if j < name.len() {
            assert(text[j] == name[j]);
        } else if j > name.len() {
            assert(text[j] == value[j - name.len() - 1]);
        }
    }
    cut_is(text, '&', k);
    assert(text.take(k) =~= field);
    assert(text.skip(k + 1) =~= rest);
    field_is_pair(name, value);
}

/// A parameter with nothing behind it is the only one.
proof fn last_field(name: Seq<char>, value: Seq<char>)
    requires
        no_mark(name),
        unended(value),
    ensures
        parameters(name + seq!['='] + value) == seq![(name, value)],
{
    let field = name + seq!['='] + value;
    assert forall|j: int| 0 <= j < field.len() implies #[trigger] field[j] != '&' by {
        if j < name.len() {
            assert(field[j] == name[j]);
        } else if j > name.len() {
            assert(field[j] == value[j - name.len() - 1]);
        }
    }
    cut_is(field, '&', field.len() as int);
    field_is_pair(name, value);
}

proof fn field_is_pair(name: Seq<char>, value: Seq<char>)
    requires
        no_mark(name),
    ensures
        pair(name + seq!['='] + value) == (name, value),
{
    let field = name + seq!['='] + value;
    assert forall|j: int| 0 <= j < name.len() implies #[trigger] field[j] != '=' by {
        assert(field[j] == name[j]);
    }
    cut_is(field, '=', name.len() as int);
    assert(field.take(name.len() as int) =~= name);
    assert(field.skip(name.len() as int + 1) =~= value);
}

/// Encoded bytes consist of plain characters and escapes.
pub proof fn encoding_is_escaped(bytes: Seq<u8>)
    ensures
        well_escaped(percent_encoded(bytes)),
    decreases bytes.len(),
{
    if bytes.len() > 0 {
        let b = bytes[0];
        let tail = percent_encoded(bytes.drop_first());
        let text = percent_encoded(bytes);
        encoding_is_escaped(bytes.drop_first());
        encoded_in_front(bytes);
        if unreserved(b) {
            assert(text[0] == b as char);
            assert(text.skip(1) =~= tail);
        } else {
            assert(text[0] == '%' && text[1] == hex_digit(b as int / 16) && text[2] == hex_digit(
                b as int % 16,
            ));
            assert(text.skip(3) =~= tail);
        }
    }
}

/// Nothing in such a text ends a parameter.
proof fn escapes_do_not_end(text: Seq<char>)
    requires
        well_escaped(text),
    ensures
        unended(text),
    decreases text.len(),
{
    if text.len() > 0 {
        let n: int = if text[0] == '%' {
            3
        } else {
            1
        };
        let rest = text.skip(n);
        escapes_do_not_end(rest);
        assert forall|k: int| 0 <= k < text.len() implies #[trigger] text[k] != '&' by {
            if k >= n {
                assert(text[k] == rest[k - n]);
            }
        }
    }
}

/// A decimal numeral denotes its number.
pub proof fn numerals_denote(n: nat)
    ensures
        denotes(decimal(n), n),
        n > 0 ==> decimal(n)[0] != '0',
    decreases n,
{
    let text = decimal(n);
    if n < 10 {
        assert(text.drop_last() =~= Seq::empty());
        reveal_with_fuel(numeral_value, 2);
        assert(text[0] == digit(n as int));
    } else {
        let first = decimal(n / 10);
        numerals_denote(n / 10);
        assert(text.drop_last() =~= first);
        assert forall|k: int| 0 <= k < text.len() implies '0' <= #[trigger] text[k] <= '9' by {
            if k < first.len() {
                assert(text[k] == first[k]);
            }
        }
        assert(text[0] == first[0]);
    }
}

proof fn numerals_do_not_end(text: Seq<char>, n: nat)
    requires
        denotes(text, n),
    ensures
        unended(text),
{
}

} // verus!
