use crate::error::Error;
use reqwest::{Client, RequestBuilder};
use vstd::prelude::*;
use vstd::seq_lib::seq_to_set_is_finite;
use vstd::set_lib::{lemma_len_subset, lemma_len_union};
use vstd::string::*;

verus! {

/// A client of the transport, with its connection pool.
#[verifier::external_type_specification]
#[verifier::external_body]
pub struct ExClient(Client);

/// A request under construction.
#[verifier::external_type_specification]
#[verifier::external_body]
pub struct ExRequestBuilder(RequestBuilder);

/// The User-Agent that a client sends with every request that does not name another.
pub uninterp spec fn client_user_agent(client: Client) -> Seq<char>;

/// What [`Client::get`] returns.
pub uninterp spec fn client_get(client: Client, url: Seq<char>) -> RequestBuilder;

/// What [`Client::post`] returns.
pub uninterp spec fn client_post(client: Client, url: Seq<char>) -> RequestBuilder;

/// What [`RequestBuilder::header`] returns.
pub uninterp spec fn builder_header(
    builder: RequestBuilder,
    name: Seq<char>,
    value: Seq<char>,
) -> RequestBuilder;

/// What [`RequestBuilder::form`] returns for a list of names and values.
pub uninterp spec fn builder_form(
    builder: RequestBuilder,
    form: Seq<(Seq<char>, Seq<char>)>,
) -> RequestBuilder;

/// The header names of a request under construction, in lower case; none where it holds an
/// error in place of the request.
pub uninterp spec fn builder_names(builder: RequestBuilder) -> Set<Seq<u8>>;

/// A header name in lower case.
pub open spec fn lower_case(name: Seq<u8>) -> Seq<u8> {
    name.map_values(|b: u8| lower_byte(b))
}

/// An ASCII letter in lower case; any other byte as it is.
pub open spec fn lower_byte(b: u8) -> u8 {
    if 65 <= b <= 90 {
        (b + 32) as u8
    } else {
        b
    }
}

/// The names of these headers, in lower case, each once.
pub open spec fn header_names(headers: Seq<(&str, &str)>) -> Set<Seq<u8>> {
    headers.map_values(|header: (&str, &str)| lower_case(header.0.spec_bytes())).to_set()
}

/// There are at most `limit` names among these headers, as there are if there are no more
/// headers than that.
pub open spec fn few_names(headers: Seq<(&str, &str)>, limit: usize) -> bool {
    headers.len() <= limit || header_names(headers).len() <= limit
}

/// So many header names fit into a GET request: a header map takes 6,554 names without fail,
/// and there may be another one, for credentials that stand in the URL.
pub const MAX_GET_NAMES: usize = 6_552;

/// So many header names fit into a POST request, where the form takes one more.
pub const MAX_POST_NAMES: usize = 6_551;

/// A text that can be the value of a header: no control character but the tab.
pub open spec fn is_header_text(bytes: Seq<u8>) -> bool {
    forall|i: int| 0 <= i < bytes.len() ==> (#[trigger] bytes[i] >= 32 && bytes[i] != 127
        || bytes[i] == 9)
}

/// `Client::builder().user_agent(..).build()` makes a client that sends this User-Agent. It
/// fails where the text cannot be the value of a header. Otherwise it may fail, too: that
/// depends on the machine (its TLS library and resolver), and is left open.
#[verifier::external_body]
fn build_client(user_agent: &str) -> (r: Result<Client, reqwest::Error>)
    ensures
        r matches Ok(client) ==> client_user_agent(client) == user_agent@,
        !is_header_text(user_agent.spec_bytes()) ==> r is Err,
{
    Client::builder().user_agent(user_agent).build()
}

/// [`Client::get`] starts a GET request. The result depends on the client and the URL alone
/// (an error about the URL is kept in it), and has one header at most, for credentials that
/// stand in the URL: Authorization.
#[verifier::external_body]
fn start_get(client: &Client, url: &str) -> (r: RequestBuilder)
    ensures
        r == client_get(*client, url@),
        builder_names(r).subset_of(set!["authorization".spec_bytes()]),
{
    client.get(url)
}

/// [`Client::post`] starts a POST request. The result depends on the client and the URL
/// alone (an error about the URL is kept in it), and has one header at most, for credentials
/// that stand in the URL: Authorization.
#[verifier::external_body]
fn start_post(client: &Client, url: &str) -> (r: RequestBuilder)
    ensures
        r == client_post(*client, url@),
        builder_names(r).subset_of(set!["authorization".spec_bytes()]),
{
    client.post(url)
}

/// [`RequestBuilder::header`] appends a header. The result depends on the arguments alone
/// (an error about the name or the value is kept in it), and its header names are those of the
/// request before and this one, in lower case. A header map of fewer than 6,554 names takes
/// another header without fail; whether a larger one does depends on how the hashes of its
/// names fall, and is left out here.
#[verifier::external_body]
fn append_header(builder: RequestBuilder, name: &str, value: &str) -> (r: RequestBuilder)
    requires
        builder_names(builder).finite(),
        builder_names(builder).len() < 6_554,
    ensures
        r == builder_header(builder, name@, value@),
        builder_names(r).subset_of(builder_names(builder).insert(lower_case(name.spec_bytes()))),
{
    builder.header(name, value)
}

/// [`RequestBuilder::form`] sets the body to the urlencoded pairs, and the Content-Type
/// header if it is not set, for which the header map must have room. The result depends on the
/// arguments alone (an error about the form is kept in it).
#[verifier::external_body]
fn set_form(builder: RequestBuilder, form: &[(&str, &str)]) -> (r: RequestBuilder)
    requires
        builder_names(builder).finite(),
        builder_names(builder).len() < 6_554,
    ensures
        r == builder_form(builder, texts(form@)),
        builder_names(r).subset_of(builder_names(builder).insert("content-type".spec_bytes())),
{
    builder.form(form)
}

/// The texts of a list of names and values.
pub open spec fn texts(pairs: Seq<(&str, &str)>) -> Seq<(Seq<char>, Seq<char>)> {
    pairs.map_values(|pair: (&str, &str)| (pair.0@, pair.1@))
}

/// A request with these headers appended, one after the other.
pub open spec fn with_headers(
    builder: RequestBuilder,
    headers: Seq<(Seq<char>, Seq<char>)>,
) -> RequestBuilder
    decreases headers.len(),
{
    if headers.len() == 0 {
        builder
    } else {
        builder_header(
            with_headers(builder, headers.drop_last()),
            headers.last().0,
            headers.last().1,
        )
    }
}

/// Appending nothing changes nothing, and one header more is appended last.
pub proof fn lemma_headers_are_appended_in_order(
    builder: RequestBuilder,
    headers: Seq<(Seq<char>, Seq<char>)>,
    name: Seq<char>,
    value: Seq<char>,
)
    ensures
        with_headers(builder, Seq::empty()) == builder,
        with_headers(builder, headers.push((name, value))) == builder_header(
            with_headers(builder, headers),
            name,
            value,
        ),
{
    assert(headers.push((name, value)).drop_last() =~= headers);
}

/// Appending two lists one after the other is appending all of it.
pub proof fn lemma_appending_twice(
    builder: RequestBuilder,
    first: Seq<(Seq<char>, Seq<char>)>,
    then: Seq<(Seq<char>, Seq<char>)>,
)
    ensures
        with_headers(with_headers(builder, first), then) == with_headers(builder, first + then),
    decreases then.len(),
{
    if then.len() == 0 {
        assert(first + then =~= first);
    } else {
        lemma_appending_twice(builder, first, then.drop_last());
        assert((first + then).drop_last() =~= first + then.drop_last());
    }
}

/// The texts of a list are the texts of its names and values, all of them and in order.
pub proof fn lemma_texts(pairs: Seq<(&str, &str)>)
    ensures
        texts(pairs).len() == pairs.len(),
        forall|i: int|
            0 <= i < pairs.len() ==> #[trigger] texts(pairs)[i] == (pairs[i].0@, pairs[i].1@),
{
}

/// The request after each of these headers has been appended, one after the other.
pub open spec fn appended(builder: RequestBuilder, headers: Seq<(&str, &str)>) -> RequestBuilder {
    headers.fold_left(
        builder,
        |request: RequestBuilder, header: (&str, &str)|
            builder_header(request, header.0@, header.1@),
    )
}

proof fn lemma_appended(builder: RequestBuilder, headers: Seq<(&str, &str)>)
    ensures
        with_headers(builder, texts(headers)) == appended(builder, headers),
    decreases headers.len(),
{
    if headers.len() > 0 {
        let fewer = headers.drop_last();
        lemma_appended(builder, fewer);
        assert(texts(headers).drop_last() =~= texts(fewer));
    }
}

/// Two spellings of a name in upper and lower case letters are one name, and no other two are.
pub proof fn lemma_names_ignore_case(a: Seq<u8>, b: Seq<u8>)
    ensures
        lower_case(a) == lower_case(b) <==> {
            &&& a.len() == b.len()
            &&& forall|i: int|
                0 <= i < a.len() ==> {
                    ||| #[trigger] a[i] == b[i]
                    ||| 65 <= a[i] <= 90 && b[i] == a[i] + 32
                    ||| 65 <= b[i] <= 90 && a[i] == b[i] + 32
                }
        },
{
    let same = forall|i: int|
        0 <= i < a.len() ==> {
            ||| #[trigger] a[i] == b[i]
            ||| 65 <= a[i] <= 90 && b[i] == a[i] + 32
            ||| 65 <= b[i] <= 90 && a[i] == b[i] + 32
        };
    if lower_case(a) == lower_case(b) {
        assert(lower_case(a).len() == a.len() && lower_case(b).len() == b.len());
        assert forall|i: int| 0 <= i < a.len() implies {
            ||| #[trigger] a[i] == b[i]
            ||| 65 <= a[i] <= 90 && b[i] == a[i] + 32
            ||| 65 <= b[i] <= 90 && a[i] == b[i] + 32
        } by {
            assert(lower_case(a)[i] == lower_byte(a[i]));
            assert(lower_case(b)[i] == lower_byte(b[i]));
        }
    }
    if a.len() == b.len() && same {
        assert forall|i: int| 0 <= i < a.len() implies lower_case(a)[i] == lower_case(b)[i] by {
            assert(a[i] == a[i]);
        }
        assert(lower_case(a) =~= lower_case(b));
    }
}

/// The names of a list are the names of its headers, in lower case, and no others; there are
/// no more of them than headers, and a list is refused only if there are too many of them.
pub proof fn lemma_names_of_headers(headers: Seq<(&str, &str)>, name: Seq<u8>)
    ensures
        header_names(headers).contains(name) <==> exists|i: int|
            0 <= i < headers.len() && name == lower_case((#[trigger] headers[i]).0.spec_bytes()),
        header_names(headers).finite(),
        header_names(headers).len() <= headers.len(),
        few_names(headers, 6_552) <==> header_names(headers).len() <= 6_552,
        few_names(headers, 6_551) <==> header_names(headers).len() <= 6_551,
{
    let names = headers.map_values(
        |header: (&str, &str)| lower_case(header.0.spec_bytes()),
    );
    lemma_header_names_finite(headers);
    if names.contains(name) {
        let i = choose|i: int| 0 <= i < names.len() && names[i] == name;
        assert(name == lower_case(headers[i].0.spec_bytes()));
    }
    if exists|i: int|
        0 <= i < headers.len() && name == lower_case((#[trigger] headers[i]).0.spec_bytes()) {
        let i = choose|i: int|
            0 <= i < headers.len() && name == lower_case((#[trigger] headers[i]).0.spec_bytes());
        lemma_header_name_counts(headers, i);
    }
}

fn append_headers(builder: RequestBuilder, headers: &[(&str, &str)]) -> (r: RequestBuilder)
    requires
        builder_names(builder).finite(),
        builder_names(builder).len() + header_names(headers@).len() < 6_554,
    ensures
        r == with_headers(builder, texts(headers@)),
        r == appended(builder, headers@),
{
    let ghost all = texts(headers@);
    let ghost limit = builder_names(builder).union(header_names(headers@));
    let mut request = builder;
    let mut i: usize = 0;
    proof {
        assert(all.take(0) =~= Seq::empty());
        lemma_header_names_finite(headers@);
        lemma_len_union(builder_names(builder), header_names(headers@));
    }
    while i < headers.len()
        invariant
            i <= headers@.len(),
            all == texts(headers@),
            limit == builder_names(builder).union(header_names(headers@)),
            limit.finite(),
            limit.len() < 6_554,
            request == with_headers(builder, all.take(i as int)),
            builder_names(request).subset_of(limit),
        decreases headers@.len() - i,
    {
        let (name, value) = headers[i];
        proof {
            lemma_len_subset(builder_names(request), limit);
            lemma_header_name_counts(headers@, i as int);
        }
        request = append_header(request, name, value);
        proof {
            let next = all.take(i + 1);
            assert(next.drop_last() =~= all.take(i as int));
            assert(next.last() == (name@, value@));
        }
        i = i + 1;
    }
    proof {
        assert(all.take(i as int) =~= all);
        lemma_appended(builder, headers@);
    }
    request
}

proof fn lemma_header_names_finite(headers: Seq<(&str, &str)>)
    ensures
        header_names(headers).finite(),
        header_names(headers).len() <= headers.len(),
{
    let names = headers.map_values(
        |header: (&str, &str)| lower_case(header.0.spec_bytes()),
    );
    seq_to_set_is_finite(names);
    names.lemma_cardinality_of_set();
}

proof fn lemma_header_name_counts(headers: Seq<(&str, &str)>, i: int)
    requires
        0 <= i < headers.len(),
    ensures
        header_names(headers).contains(lower_case(headers[i].0.spec_bytes())),
{
    let names = headers.map_values(
        |header: (&str, &str)| lower_case(header.0.spec_bytes()),
    );
    assert(names[i] == lower_case(headers[i].0.spec_bytes()));
}

proof fn lemma_next_header_name(headers: Seq<(&str, &str)>, i: int)
    requires
        0 <= i < headers.len(),
    ensures
        header_names(headers.take(i + 1)) == header_names(headers.take(i)).insert(
            lower_case(headers[i].0.spec_bytes()),
        ),
        header_names(headers.take(i + 1)).subset_of(header_names(headers)),
{
    let name = |header: (&str, &str)| lower_case(header.0.spec_bytes());
    let names = headers.map_values(name);
    let before = headers.take(i).map_values(name);
    let after = headers.take(i + 1).map_values(name);
    assert(after =~= before.push(names[i]));
    before.lemma_push_to_set_commute(names[i]);
    assert forall|n: Seq<u8>| after.to_set().contains(n) implies names.to_set().contains(n) by {
        let k = choose|k: int| 0 <= k < after.len() && after[k] == n;
        assert(names[k] == n);
    }
}

fn lower(b: u8) -> (r: u8)
    ensures
        r == lower_byte(b),
{
    if 65 <= b && b <= 90 {
        b + 32
    } else {
        b
    }
}

/// Whether two header names are the same, whatever their case.
fn same_name(a: &str, b: &str) -> (r: bool)
    ensures
        r == (lower_case(a.spec_bytes()) == lower_case(b.spec_bytes())),
{
    let x = a.as_bytes();
    let y = b.as_bytes();
    if x.len() != y.len() {
        assert(lower_case(x@).len() != lower_case(y@).len());
        return false;
    }
    let mut i: usize = 0;
    while i < x.len()
        invariant
            x@ == a.spec_bytes(),
            y@ == b.spec_bytes(),
            i <= x@.len() == y@.len(),
            forall|j: int| 0 <= j < i ==> lower_byte(#[trigger] x@[j]) == lower_byte(y@[j]),
        decreases x@.len() - i,
    {
        if lower(x[i]) != lower(y[i]) {
            assert(lower_case(x@)[i as int] != lower_case(y@)[i as int]);
            return false;
        }
        i = i + 1;
    }
    assert(lower_case(x@) =~= lower_case(y@));
    true
}

/// Whether an earlier header has the name of this one.
fn is_repeated(headers: &[(&str, &str)], at: usize) -> (r: bool)
    requires
        at < headers@.len(),
    ensures
        r == header_names(headers@.take(at as int)).contains(
            lower_case(headers@[at as int].0.spec_bytes()),
        ),
{
    let ghost before = headers@.take(at as int);
    let ghost name = lower_case(headers@[at as int].0.spec_bytes());
    let mut i: usize = 0;
    while i < at
        invariant
            i <= at < headers@.len(),
            before == headers@.take(at as int),
            name == lower_case(headers@[at as int].0.spec_bytes()),
            forall|j: int| 0 <= j < i ==> lower_case((#[trigger] before[j]).0.spec_bytes()) != name,
        decreases at - i,
    {
        if same_name(headers[i].0, headers[at].0) {
            proof {
                assert(before[i as int] == headers@[i as int]);
                lemma_header_name_counts(before, i as int);
            }
            return true;
        }
        assert(before[i as int] == headers@[i as int]);
        i = i + 1;
    }
    proof {
        let names = before.map_values(
            |header: (&str, &str)| lower_case(header.0.spec_bytes()),
        );
        if names.contains(name) {
            let j = choose|j: int| 0 <= j < names.len() && names[j] == name;
            assert(lower_case(before[j].0.spec_bytes()) == name);
        }
    }
    false
}

/// Whether there are at most so many names among these headers.
fn has_at_most(headers: &[(&str, &str)], limit: usize) -> (r: bool)
    ensures
        r == few_names(headers@, limit),
{
    proof {
        lemma_header_names_finite(headers@);
        lemma_header_names_finite(headers@.take(0));
    }
    if headers.len() <= limit {
        return true;
    }
    let mut count: usize = 0;
    let mut i: usize = 0;
    while i < headers.len()
        invariant
            i <= headers@.len(),
            header_names(headers@).finite(),
            header_names(headers@.take(i as int)).finite(),
            header_names(headers@.take(i as int)).len() == count <= limit,
        decreases headers@.len() - i,
    {
        let repeated = is_repeated(headers, i);
        proof {
            lemma_next_header_name(headers@, i as int);
            lemma_header_names_finite(headers@.take(i + 1));
            lemma_len_subset(header_names(headers@.take(i + 1)), header_names(headers@));
            let known = header_names(headers@.take(i as int));
            let name = lower_case(headers@[i as int].0.spec_bytes());
            if repeated {
                assert(known.insert(name) =~= known);
            }
        }
        if !repeated {
            if count == limit {
                return false;
            }
            count = count + 1;
        }
        i = i + 1;
    }
    assert(headers@.take(i as int) =~= headers@);
    true
}

/// Production HTTP client backed by reqwest: it prepares the requests, which its caller
/// sends.
///
/// Wraps a `reqwest::Client` which maintains a connection pool.
/// Create once and reuse.
pub struct ReqwestHttpClient {
    pub client: Client,
}

impl ReqwestHttpClient {
    /// Polite API consumers identify themselves on every request with a product
    /// name and contact address (required by e.g. the Wikimedia User-Agent policy;
    /// good etiquette everywhere else). The caller supplies that string: this crate
    /// stays identity-neutral, so derive it from your own binary's package metadata.
    pub fn new(user_agent: &str) -> (r: Result<Self, Error>)
        ensures
            match r {
                Ok(client) => client_user_agent(client.client) == user_agent@ && is_header_text(
                    user_agent.spec_bytes(),
                ),
                Err(error) => error is Transport,
            },
    {
        match build_client(user_agent) {
            Ok(client) => Ok(Self { client }),
            Err(error) => Err(Error::Transport(error)),
        }
    }

    /// Prepare a GET request.
    pub fn get(&self, url: &str) -> (r: RequestBuilder)
        ensures
            r == client_get(self.client, url@),
    {
        self.get_with_headers(url, &[])
    }

    /// Prepare a GET request with additional headers (e.g. `Accept`).
    pub fn get_with_headers(&self, url: &str, headers: &[(&str, &str)]) -> (r: RequestBuilder)
        requires
            few_names(headers@, MAX_GET_NAMES),
        ensures
            r == with_headers(client_get(self.client, url@), texts(headers@)),
            r == headers@.fold_left(
                client_get(self.client, url@),
                |request: RequestBuilder, header: (&str, &str)|
                    builder_header(request, header.0@, header.1@),
            ),
    {
        let request = start_get(&self.client, url);
        proof {
            lemma_header_names_finite(headers@);
            lemma_len_subset(
                builder_names(request),
                Set::empty().insert("authorization".spec_bytes()),
            );
        }
        append_headers(request, headers)
    }

    /// Whether `get_with_headers` takes these headers: they have few enough names.
    pub fn can_get_with_headers(&self, headers: &[(&str, &str)]) -> (r: bool)
        ensures
            r == few_names(headers@, MAX_GET_NAMES),
            r <==> header_names(headers@).len() <= 6_552,
    {
        proof {
            lemma_header_names_finite(headers@);
        }
        has_at_most(headers, MAX_GET_NAMES)
    }

    /// Prepare a POST request with a urlencoded form body and additional headers.
    pub fn post_form(&self, url: &str, form: &[(&str, &str)], headers: &[(&str, &str)]) -> (r:
        RequestBuilder)
        requires
            few_names(headers@, MAX_POST_NAMES),
        ensures
            r == with_headers(
                builder_form(client_post(self.client, url@), texts(form@)),
                texts(headers@),
            ),
            r == headers@.fold_left(
                builder_form(
                    client_post(self.client, url@),
                    form@.map_values(|pair: (&str, &str)| (pair.0@, pair.1@)),
                ),
                |request: RequestBuilder, header: (&str, &str)|
                    builder_header(request, header.0@, header.1@),
            ),
    {
        let request = start_post(&self.client, url);
        proof {
            lemma_header_names_finite(headers@);
            lemma_len_subset(
                builder_names(request),
                Set::empty().insert("authorization".spec_bytes()),
            );
        }
        let ghost names = builder_names(request);
        let request = set_form(request, form);
        proof {
            lemma_len_subset(
                builder_names(request),
                names.insert("content-type".spec_bytes()),
            );
        }
        append_headers(request, headers)
    }

    /// Whether `post_form` takes these headers: they have few enough names.
    pub fn can_post_form(&self, headers: &[(&str, &str)]) -> (r: bool)
        ensures
            r == few_names(headers@, MAX_POST_NAMES),
            r <==> header_names(headers@).len() <= 6_551,
    {
        proof {
            lemma_header_names_finite(headers@);
        }
        has_at_most(headers, MAX_POST_NAMES)
    }
}

}
