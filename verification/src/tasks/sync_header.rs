//! Downloading the headers of a range of blocks from a peer, in batches.

use vstd::prelude::*;

use crate::interface::{
    header_views, Header, HeaderView, HeadersRequest, RequestError, RequestResponse,
};

verus! {

/// Sets up a [`SyncHeader`]. `H` gives access to the network, `Peer` names a peer.
pub struct SyncHeaderBuilder<H, Peer> {
    pub provider: Option<H>,
    pub peer_id: Option<Peer>,
    pub local_head_block: u64,
    pub target_head: u64,
    pub request_limit: u64,
    pub max_concurrent_limit: usize,
}

impl<H, Peer> Default for SyncHeaderBuilder<H, Peer> {
    fn default() -> (res: Self)
        ensures
            res == (SyncHeaderBuilder::<H, Peer> {
                provider: None,
                peer_id: None,
                local_head_block: 0,
                target_head: 0,
                request_limit: 1000,
                max_concurrent_limit: 10,
            }),
    {
        SyncHeaderBuilder {
            provider: None,
            peer_id: None,
            local_head_block: 0,
            target_head: 0,
            request_limit: 1000,
            max_concurrent_limit: 10,
        }
    }
}

impl<H, Peer> SyncHeaderBuilder<H, Peer> {
    /// Sets the provider, which is required: it gets headers from the network.
    pub fn provider(self, provider: H) -> (res: Self)
        ensures
            res == (SyncHeaderBuilder { provider: Some(provider), ..self }),
    {
        SyncHeaderBuilder { provider: Some(provider), ..self }
    }

    /// Sets the best known local head block. The default is 0, the genesis block.
    pub fn local_head_block(self, block: u64) -> (res: Self)
        ensures
            res == (SyncHeaderBuilder { local_head_block: block, ..self }),
    {
        SyncHeaderBuilder { local_head_block: block, ..self }
    }

    /// Sets the target head block, the last one wanted. With the default, 0, none is.
    pub fn target_head(self, block: u64) -> (res: Self)
        ensures
            res == (SyncHeaderBuilder { target_head: block, ..self }),
    {
        SyncHeaderBuilder { target_head: block, ..self }
    }

    /// Sets the peer to sync from, which is required.
    pub fn peer_id(self, peer_id: Peer) -> (res: Self)
        ensures
            res == (SyncHeaderBuilder { peer_id: Some(peer_id), ..self }),
    {
        SyncHeaderBuilder { peer_id: Some(peer_id), ..self }
    }

    /// Sets how many headers a request asks for at most. The default is 1000.
    pub fn request_limit(self, limit: u64) -> (res: Self)
        ensures
            res == (SyncHeaderBuilder { request_limit: limit, ..self }),
    {
        SyncHeaderBuilder { request_limit: limit, ..self }
    }

    /// Sets how many requests may wait for their response at a time. The default is 10.
    pub fn max_concurrent_limit(self, limit: usize) -> (res: Self)
        ensures
            res == (SyncHeaderBuilder { max_concurrent_limit: limit, ..self }),
    {
        SyncHeaderBuilder { max_concurrent_limit: limit, ..self }
    }

    /// The task, before its first request.
    pub fn build(self) -> (res: SyncHeader<H, Peer>)
        requires
            self.provider is Some,
            self.peer_id is Some,
        ensures
            res.inv(),
            res.source() == (self.provider->0, self.peer_id->0),
            res.view() == (SyncView {
                first_head: self.local_head_block,
                local_head: self.local_head_block,
                target_head: self.target_head,
                request_limit: self.request_limit,
                max_concurrent_limit: self.max_concurrent_limit,
                requests: seq![],
                batches: seq![],
                failure: None,
            }),
    {
        let res = SyncHeader {
            provider: self.provider.unwrap(),
            peer_id: self.peer_id.unwrap(),
            batches: Vec::new(),
            failure: None,
            in_progress: 0,
            max_concurrent_limit: self.max_concurrent_limit,
            local_head_block: self.local_head_block,
            request_limit: self.request_limit,
            target_head: self.target_head,
            first_head: Ghost(self.local_head_block),
            requests: Ghost(Seq::empty()),
        };
        assert(res.view().batches =~= seq![]);
        proof {
            lemma_asked_before(res.view().first_head, res.view().requests, 0);
        }
        res
    }
}

/// Why headers could not be synced.
#[derive(Debug, PartialEq, Eq)]
pub enum SyncHeaderError {
    /// A header is invalid.
    HeaderInvalid,
    /// A response held no header.
    EmptyResponse,
    /// A request failed.
    RequestError(RequestError),
}

impl Clone for SyncHeaderError {
    fn clone(&self) -> (res: Self)
        ensures
            res == *self,
    {
        match self {
            SyncHeaderError::HeaderInvalid => SyncHeaderError::HeaderInvalid,
            SyncHeaderError::EmptyResponse => SyncHeaderError::EmptyResponse,
            SyncHeaderError::RequestError(e) => SyncHeaderError::RequestError(e.clone()),
        }
    }
}

/// The text of a sync error.
pub open spec fn sync_error_text(error: SyncHeaderError) -> Seq<char> {
    match error {
        SyncHeaderError::HeaderInvalid => "Header is invalid."@,
        SyncHeaderError::EmptyResponse => "Response is empty."@,
        SyncHeaderError::RequestError(_) => "Request erorr."@,
    }
}

impl SyncHeaderError {
    /// The text of the error.
    pub fn message(&self) -> (res: String)
        ensures
            res@ == sync_error_text(*self),
    {
        match self {
            SyncHeaderError::HeaderInvalid => "Header is invalid.".to_owned(),
            SyncHeaderError::EmptyResponse => "Response is empty.".to_owned(),
            SyncHeaderError::RequestError(_) => "Request erorr.".to_owned(),
        }
    }
}

/// The headers that were synced, or why there are none.
pub type SyncHeaderOutput = Result<Vec<Header>, SyncHeaderError>;

/// How far a sync has come. Each request has a batch, which is there once the response is. The
/// failure is that of the earliest request that failed, by its index, and its cause.
pub struct SyncView {
    pub first_head: u64,
    pub local_head: u64,
    pub target_head: u64,
    pub request_limit: u64,
    pub max_concurrent_limit: usize,
    pub requests: Seq<HeadersRequest>,
    pub batches: Seq<Option<Seq<HeaderView>>>,
    pub failure: Option<(usize, SyncHeaderError)>,
}

/// How many batches are still missing.
pub open spec fn missing<T>(batches: Seq<Option<T>>) -> nat
    decreases batches.len(),
{
    if batches.len() == 0 {
        0
    } else {
        missing(batches.drop_last()) + if batches.last() is None {
            1nat
        } else {
            0nat
        }
    }
}

/// The headers of batches that are all there, in the order of the requests.
pub open spec fn joined(batches: Seq<Option<Seq<HeaderView>>>) -> Seq<HeaderView>
    decreases batches.len(),
{
    if batches.len() == 0 {
        seq![]
    } else {
        joined(batches.drop_last()) + batches.last()->0
    }
}

/// The number before the first one of the request at `i`: the first head, or the last number that
/// the request before asks for.
#[verifier::opaque]
pub open spec fn asked_before(first_head: u64, requests: Seq<HeadersRequest>, i: int) -> int {
    if i == 0 {
        first_head as int
    } else {
        requests[i - 1].start_block + requests[i - 1].limit - 1
    }
}

/// The first number that the request at `i` asks for: the requests before it each ask for as many
/// as the limit allows.
#[verifier::opaque]
pub open spec fn start_of(first_head: u64, request_limit: u64, i: int) -> int {
    first_head + 1 + i * request_limit
}

/// The smaller of two numbers.
pub open spec fn smaller(a: int, b: int) -> int {
    if a < b {
        a
    } else {
        b
    }
}

impl SyncView {
    /// What every step keeps. The requests ask for the numbers after the first head up to the local
    /// head, each once and in order: every request starts a limit after the one before it, and asks
    /// for as many headers as the limit allows and are left up to the target. No more of them wait
    /// than may.
    pub open spec fn valid(self) -> bool {
        &&& self.requests.len() == self.batches.len()
        &&& missing(self.batches) <= self.max_concurrent_limit
        &&& forall|i: int|
            0 <= i < self.requests.len() ==> {
                &&& (#[trigger] self.requests[i]).start_block == start_of(
                    self.first_head,
                    self.request_limit,
                    i,
                )
                &&& self.requests[i].limit == smaller(
                    self.request_limit as int,
                    self.target_head + 1 - self.requests[i].start_block,
                )
                &&& self.requests[i].start_block <= self.target_head
                &&& self.requests[i].start_block == asked_before(
                    self.first_head,
                    self.requests,
                    i,
                ) + 1
            }
        &&& self.local_head == asked_before(
            self.first_head,
            self.requests,
            self.requests.len() as int,
        )
        &&& self.failure matches Some(failure) ==> failure.0 < self.batches.len()
    }

    /// How many batches come out, if they come: those before the failure.
    pub open spec fn end(self) -> int {
        match self.failure {
            Some(failure) => failure.0 as int,
            None => self.batches.len() as int,
        }
    }

    /// How many of the batches that come out are missing.
    pub open spec fn awaited(self) -> nat {
        missing(self.batches.take(self.end()))
    }

    /// Whether a request may be sent: none has failed, fewer wait than may, and the target is not
    /// reached.
    pub open spec fn may_request(self) -> bool {
        &&& self.failure is None
        &&& missing(self.batches) < self.max_concurrent_limit
        &&& self.local_head < self.target_head
    }

    /// The next request: for as many headers as are left, up to the limit.
    pub open spec fn next_request(self) -> HeadersRequest {
        HeadersRequest {
            start_block: (self.local_head + 1) as u64,
            limit: smaller(
                self.target_head - self.local_head,
                self.request_limit as int,
            ) as u64,
        }
    }

    /// The state once the next request is sent.
    pub open spec fn requested(self) -> SyncView {
        SyncView {
            local_head: (self.local_head + self.next_request().limit) as u64,
            requests: self.requests.push(self.next_request()),
            batches: self.batches.push(None),
            ..self
        }
    }

    /// Whether the request at `index` waits for its response.
    pub open spec fn waits_for(self, index: int) -> bool {
        0 <= index < self.batches.len() && self.batches[index] is None
    }

    /// The state once the response to the request at `index` is there.
    pub open spec fn responded(self, index: int, headers: Seq<HeaderView>) -> SyncView {
        SyncView { batches: self.batches.update(index, Some(headers)), ..self }
    }

    /// The state once the request at `index` has failed. Only the earliest failure counts.
    pub open spec fn failed(self, index: usize, error: SyncHeaderError) -> SyncView {
        if index < self.end() {
            SyncView { failure: Some((index, error)), ..self }
        } else {
            self
        }
    }

    /// The state once the outcome of the request at `index` is there. A response without headers is
    /// a failure.
    pub open spec fn answered(
        self,
        index: usize,
        response: Result<Seq<HeaderView>, RequestError>,
    ) -> SyncView {
        match response {
            Ok(headers) => if headers.len() == 0 {
                self.failed(index, SyncHeaderError::EmptyResponse)
            } else {
                self.responded(index as int, headers)
            },
            Err(e) => self.failed(index, SyncHeaderError::RequestError(e)),
        }
    }

    /// What comes out of a sync for which nothing is awaited: the headers before the failure, in
    /// the order of the requests, or the failure itself if it is that of the first request.
    pub open spec fn output(self) -> Result<Seq<HeaderView>, SyncHeaderError> {
        match self.failure {
            Some((0, error)) => Err(error),
            _ => Ok(joined(self.batches.take(self.end()))),
        }
    }
}

/// The content of what comes out of a sync.
pub open spec fn output_view(output: SyncHeaderOutput) -> Result<Seq<HeaderView>, SyncHeaderError> {
    match output {
        Ok(headers) => Ok(header_views(headers@)),
        Err(e) => Err(e),
    }
}

/// The content of a response.
pub open spec fn response_view(response: RequestResponse<Vec<Header>>) -> Result<
    Seq<HeaderView>,
    RequestError,
> {
    match response {
        Ok(headers) => Ok(header_views(headers@)),
        Err(e) => Err(e),
    }
}

/// What a sync does next.
#[derive(Debug, PartialEq, Eq)]
pub enum SyncStep {
    /// Send a request, whose response is to be handed back with the index.
    Request { index: usize, request: HeadersRequest },
    /// Wait for a response.
    Wait,
    /// The sync is over.
    Done { output: SyncHeaderOutput },
}

/// A download of headers from one peer, towards the target head. Requests are sent as long as fewer
/// than the maximum wait for their response; the headers come out in the order of the requests,
/// whatever the order of the responses. When a request fails, or its response is empty, no more are
/// sent, and the headers of the requests before it come out.
pub struct SyncHeader<H, Peer> {
    provider: H,
    peer_id: Peer,
    batches: Vec<Option<Vec<Header>>>,
    failure: Option<(usize, SyncHeaderError)>,
    in_progress: usize,
    max_concurrent_limit: usize,
    local_head_block: u64,
    request_limit: u64,
    target_head: u64,
    first_head: Ghost<u64>,
    requests: Ghost<Seq<HeadersRequest>>,
}

/// The contents of batches.
spec fn batch_views(batches: Seq<Option<Vec<Header>>>) -> Seq<Option<Seq<HeaderView>>> {
    batches.map_values(
        |batch: Option<Vec<Header>>|
            match batch {
                Some(headers) => Some(header_views(headers@)),
                None => None,
            },
    )
}

impl<H, Peer> SyncHeader<H, Peer> {
    /// The provider that requests go through, and the peer that they go to.
    pub closed spec fn source(&self) -> (H, Peer) {
        (self.provider, self.peer_id)
    }

    /// How far the sync has come.
    pub closed spec fn view(&self) -> SyncView {
        SyncView {
            first_head: self.first_head@,
            local_head: self.local_head_block,
            target_head: self.target_head,
            request_limit: self.request_limit,
            max_concurrent_limit: self.max_concurrent_limit,
            requests: self.requests@,
            batches: batch_views(self.batches@),
            failure: self.failure,
        }
    }

    /// What every step keeps.
    pub closed spec fn inv(&self) -> bool {
        &&& self.view().valid()
        &&& self.in_progress == self.view().awaited()
    }

    /// A sync keeps its requests in order.
    pub proof fn lemma_inv(&self)
        requires
            self.inv(),
        ensures
            self.view().valid(),
    {
    }

    /// The provider that requests go through.
    pub fn provider(&self) -> (res: &H)
        ensures
            *res == self.source().0,
    {
        &self.provider
    }

    /// The peer that requests go to.
    pub fn peer_id(&self) -> (res: &Peer)
        ensures
            *res == self.source().1,
    {
        &self.peer_id
    }

    /// What to do next. A request is sent if one may be; otherwise, if no response is awaited, the
    /// sync is over.
    pub fn poll(&mut self) -> (res: SyncStep)
        requires
            old(self).inv(),
        ensures
            final(self).inv(),
            final(self).source() == old(self).source(),
            match res {
                SyncStep::Request { index, request } => {
                    &&& old(self).view().may_request()
                    &&& index == old(self).view().batches.len()
                    &&& request == old(self).view().next_request()
                    &&& final(self).view() == old(self).view().requested()
                },
                SyncStep::Wait => {
                    &&& !old(self).view().may_request()
                    &&& old(self).view().awaited() > 0
                    &&& final(self).view() == old(self).view()
                },
                SyncStep::Done { output } => {
                    &&& !old(self).view().may_request()
                    &&& old(self).view().awaited() == 0
                    &&& output_view(output) == old(self).view().output()
                    &&& final(self).view() == old(self).view()
                },
            },
    {
        proof {
            if self.failure is None {
                assert(self.view().batches.take(self.view().end()) =~= self.view().batches);
            }
        }
        if self.failure.is_none() && self.in_progress < self.max_concurrent_limit
            && self.target_head > self.local_head_block {
            let diff: u64 = self.target_head - self.local_head_block;
            let limit: u64 = if diff < self.request_limit {
                diff
            } else {
                self.request_limit
            };
            let request = HeadersRequest { start_block: self.local_head_block + 1, limit };
            let index: usize = self.batches.len();
            self.local_head_block = self.local_head_block + limit;
            self.batches.push(None);
            self.in_progress = self.in_progress + 1;
            proof {
                self.requests@ = self.requests@.push(request);
                let before = old(self).view();
                let after = self.view();
                assert(after.batches =~= before.batches.push(None));
                lemma_requested_is_valid(before);
                assert(after == before.requested());
                assert(after.batches.take(after.end()) =~= after.batches);
                assert(after.batches.drop_last() =~= before.batches);
            }
            SyncStep::Request { index, request }
        } else if self.in_progress == 0 {
            SyncStep::Done { output: self.finish() }
        } else {
            SyncStep::Wait
        }
    }

    /// What comes out, once nothing is awaited.
    fn finish(&self) -> (res: SyncHeaderOutput)
        requires
            self.inv(),
            self.in_progress == 0,
        ensures
            output_view(res) == self.view().output(),
    {
        match &self.failure {
            Some((index, error)) => {
                if *index == 0 {
                    Err(error.clone())
                } else {
                    Ok(self.joined_headers(*index))
                }
            },
            None => Ok(self.joined_headers(self.batches.len())),
        }
    }

    /// The headers of the first batches, in the order of the requests.
    fn joined_headers(&self, end: usize) -> (res: Vec<Header>)
        requires
            self.inv(),
            self.in_progress == 0,
            end == self.view().end(),
        ensures
            header_views(res@) == joined(self.view().batches.take(end as int)),
    {
        let ghost views = self.view().batches.take(end as int);
        let mut headers: Vec<Header> = Vec::new();
        let mut i: usize = 0;
        while i < end
            invariant
                i <= end <= self.batches@.len(),
                views == batch_views(self.batches@).take(end as int),
                missing(views) == 0,
                header_views(headers@) == joined(views.take(i as int)),
            decreases end - i,
        {
            assert(views.take(i + 1).drop_last() =~= views.take(i as int));
            proof {
                lemma_none_missing(views, i as int);
            }
            if let Some(batch) = &self.batches[i] {
                let mut copies = batch.clone();
                assert(header_views(copies@) =~= header_views(batch@));
                let ghost before = headers@;
                let ghost added = copies@;
                headers.append(&mut copies);
                assert(header_views(headers@) =~= header_views(before) + header_views(added));
            }
            i = i + 1;
        }
        assert(views.take(i as int) =~= views);
        headers
    }

    /// Takes the headers of a response. There must be some.
    pub fn on_header_response(&mut self, index: usize, headers: Vec<Header>) -> (res: Result<
        (),
        SyncHeaderError,
    >)
        requires
            old(self).inv(),
            old(self).view().waits_for(index as int),
        ensures
            final(self).inv(),
            final(self).source() == old(self).source(),
            if headers@.len() == 0 {
                &&& res == Err::<(), SyncHeaderError>(SyncHeaderError::EmptyResponse)
                &&& final(self).view() == old(self).view()
            } else {
                &&& res is Ok
                &&& final(self).view() == old(self).view().responded(
                    index as int,
                    header_views(headers@),
                )
            },
    {
        if headers.len() == 0 {
            return Err(SyncHeaderError::EmptyResponse);
        }
        let ghost views = header_views(headers@);
        let awaited = match &self.failure {
            Some((first, _)) => index < *first,
            None => true,
        };
        proof {
            lemma_responded(self.view(), index as int, views);
        }
        self.batches.set(index, Some(headers));
        if awaited {
            self.in_progress = self.in_progress - 1;
        }
        assert(self.view().batches =~= old(self).view().batches.update(index as int, Some(views)));
        Ok(())
    }

    /// Notes that a request has failed. No more are sent, and only what comes before it is awaited.
    fn fail(&mut self, index: usize, error: SyncHeaderError)
        requires
            old(self).inv(),
            old(self).view().waits_for(index as int),
        ensures
            final(self).inv(),
            final(self).source() == old(self).source(),
            final(self).view() == old(self).view().failed(index, error),
    {
        let earlier = match &self.failure {
            Some((first, _)) => index < *first,
            None => true,
        };
        if earlier {
            self.in_progress = self.missing_before(index);
            self.failure = Some((index, error));
        }
    }

    /// How many of the first batches are missing.
    fn missing_before(&self, end: usize) -> (res: usize)
        requires
            end <= self.batches@.len(),
        ensures
            res == missing(self.view().batches.take(end as int)),
    {
        let ghost views = self.view().batches;
        let mut count: usize = 0;
        let mut i: usize = 0;
        while i < end
            invariant
                i <= end <= self.batches@.len(),
                count <= i,
                views == batch_views(self.batches@),
                count == missing(views.take(i as int)),
            decreases end - i,
        {
            assert(views.take(i + 1).drop_last() =~= views.take(i as int));
            if self.batches[i].is_none() {
                count = count + 1;
            }
            i = i + 1;
        }
        count
    }

    /// Takes the response to the request at `index`, or its failure. An empty response is a
    /// failure.
    pub fn on_response(&mut self, index: usize, response: RequestResponse<Vec<Header>>)
        requires
            old(self).inv(),
            old(self).view().waits_for(index as int),
        ensures
            final(self).inv(),
            final(self).source() == old(self).source(),
            final(self).view() == old(self).view().answered(index, response_view(response)),
    {
        match response {
            Ok(headers) => match self.on_header_response(index, headers) {
                Ok(()) => {},
                Err(e) => self.fail(index, e),
            },
            Err(e) => self.fail(index, SyncHeaderError::RequestError(e)),
        }
    }
}

/// What `asked_before` says of the request at `i`.
pub proof fn lemma_asked_before(first_head: u64, requests: Seq<HeadersRequest>, i: int)
    ensures
        asked_before(first_head, requests, i) == if i == 0 {
            first_head as int
        } else {
            requests[i - 1].start_block + requests[i - 1].limit - 1
        },
{
    reveal(asked_before);
}

/// Sending the next request keeps the requests in order.
proof fn lemma_requested_is_valid(sync: SyncView)
    requires
        sync.valid(),
        sync.may_request(),
    ensures
        sync.requested().valid(),
{
    let after = sync.requested();
    let n = sync.requests.len() as int;
    assert(after.batches.drop_last() =~= sync.batches);
    lemma_asked_before(sync.first_head, sync.requests, n);
    lemma_asked_before(after.first_head, after.requests, n);
    lemma_asked_before(after.first_head, after.requests, n + 1);
    assert(sync.local_head + 1 == start_of(sync.first_head, sync.request_limit, n)) by {
        reveal(start_of);
        if n > 0 {
            let last = sync.requests[n - 1];
            assert(last.start_block == start_of(sync.first_head, sync.request_limit, n - 1));
            assert((n - 1) * sync.request_limit + sync.request_limit == n * sync.request_limit)
                by (nonlinear_arith);
            assert(last.limit == sync.request_limit);
        } else {
            assert(n * sync.request_limit == 0) by (nonlinear_arith)
                requires
                    n == 0,
            ;
        }
    }
    assert forall|i: int| 0 <= i < after.requests.len() implies {
        &&& (#[trigger] after.requests[i]).start_block == start_of(
            after.first_head,
            after.request_limit,
            i,
        )
        &&& after.requests[i].limit == smaller(
            after.request_limit as int,
            after.target_head + 1 - after.requests[i].start_block,
        )
        &&& after.requests[i].start_block <= after.target_head
        &&& after.requests[i].start_block == asked_before(after.first_head, after.requests, i) + 1
    } by {
        if i < n {
            lemma_asked_before(sync.first_head, sync.requests, i);
            lemma_asked_before(after.first_head, after.requests, i);
            assert(sync.requests[i] == after.requests[i]);
        }
    }
}

/// If no batch is missing, each is there.
proof fn lemma_none_missing<T>(batches: Seq<Option<T>>, i: int)
    requires
        missing(batches) == 0,
        0 <= i < batches.len(),
    ensures
        batches[i] is Some,
    decreases batches.len(),
{
    if i < batches.len() - 1 {
        lemma_none_missing(batches.drop_last(), i);
    }
}

/// A batch that comes in is no longer missing.
proof fn lemma_missing_update<T>(batches: Seq<Option<T>>, i: int, batch: T)
    requires
        0 <= i < batches.len(),
        batches[i] is None,
    ensures
        missing(batches) > 0,
        missing(batches.update(i, Some(batch))) == missing(batches) - 1,
    decreases batches.len(),
{
    let after = batches.update(i, Some(batch));
    if i == batches.len() - 1 {
        assert(after.drop_last() =~= batches.drop_last());
    } else {
        lemma_missing_update(batches.drop_last(), i, batch);
        assert(after.drop_last() =~= batches.drop_last().update(i, Some(batch)));
    }
}

/// A response keeps a sync in order. One less is awaited, if the response was.
proof fn lemma_responded(sync: SyncView, index: int, headers: Seq<HeaderView>)
    requires
        sync.valid(),
        sync.waits_for(index),
    ensures
        sync.responded(index, headers).valid(),
        index < sync.end() ==> sync.awaited() > 0,
        sync.responded(index, headers).awaited() == if index < sync.end() {
            sync.awaited() - 1
        } else {
            sync.awaited() as int
        },
{
    let after = sync.responded(index, headers);
    let end = sync.end();
    lemma_missing_update(sync.batches, index, headers);
    if index < end {
        lemma_missing_update(sync.batches.take(end), index, headers);
        assert(after.batches.take(end) =~= sync.batches.take(end).update(index, Some(headers)));
    } else {
        assert(after.batches.take(end) =~= sync.batches.take(end));
    }
}

/// Whether a response holds the headers that its request asks for: their numbers count up from the
/// start, and there are as many as the limit says.
pub open spec fn answers(request: HeadersRequest, headers: Seq<HeaderView>) -> bool {
    &&& headers.len() == request.limit
    &&& forall|k: int|
        0 <= k < headers.len() ==> (#[trigger] headers[k]).number == request.start_block + k
}

/// Whether the responses to the first `count` requests are there and hold what the requests ask
/// for.
pub open spec fn first_answered(sync: SyncView, count: int) -> bool {
    &&& 0 <= count <= sync.batches.len()
    &&& forall|i: int|
        0 <= i < count ==> (#[trigger] sync.batches[i]) is Some && answers(
            sync.requests[i],
            sync.batches[i]->0,
        )
}

/// The headers that come out are in order: if each response that comes out holds what its request
/// asks for, they are numbered from the first head on, without a gap, up to the last number that
/// was asked for.
pub proof fn law_order_is_preserved(sync: SyncView)
    requires
        sync.valid(),
        first_answered(sync, sync.end()),
    ensures
        sync.output() matches Ok(headers) ==> {
            &&& headers.len() == asked_before(sync.first_head, sync.requests, sync.end())
                - sync.first_head
            &&& forall|k: int|
                0 <= k < headers.len() ==> (#[trigger] headers[k]).number == sync.first_head + 1 + k
        },
{
    lemma_joined_in_order(sync, sync.end());
}

proof fn lemma_joined_in_order(sync: SyncView, count: int)
    requires
        sync.valid(),
        first_answered(sync, count),
    ensures
        ({
            let headers = joined(sync.batches.take(count));
            &&& headers.len() == asked_before(sync.first_head, sync.requests, count)
                - sync.first_head
            &&& forall|k: int|
                0 <= k < headers.len() ==> (#[trigger] headers[k]).number == sync.first_head + 1 + k
        }),
    decreases count,
{
    let headers = joined(sync.batches.take(count));
    lemma_asked_before(sync.first_head, sync.requests, count);
    if count > 0 {
        let n = count - 1;
        lemma_joined_in_order(sync, n);
        assert(sync.batches.take(count).drop_last() =~= sync.batches.take(n));
        let init = joined(sync.batches.take(n));
        let request = sync.requests[n];
        assert(request.start_block == asked_before(sync.first_head, sync.requests, n) + 1);
        assert(sync.batches[n] is Some && answers(request, sync.batches[n]->0));
        let last = sync.batches[n]->0;
        assert(headers == init + last);
        assert forall|k: int| 0 <= k < headers.len() implies (#[trigger] headers[k]).number
            == sync.first_head + 1 + k by {
            if k < init.len() {
                assert(init[k].number == sync.first_head + 1 + k);
            } else {
                assert(last[k - init.len()].number == request.start_block + (k - init.len()));
            }
        }
    }
}

/// When a sync that may send requests is over without a failure, it has asked for every header up
/// to the target.
pub proof fn law_done_means_all_was_asked_for(sync: SyncView)
    requires
        sync.valid(),
        sync.failure is None,
        sync.max_concurrent_limit > 0,
        sync.first_head <= sync.target_head,
        !sync.may_request(),
        sync.awaited() == 0,
    ensures
        sync.local_head == sync.target_head,
{
    assert(sync.batches.take(sync.end()) =~= sync.batches);
    lemma_asked_before(sync.first_head, sync.requests, sync.requests.len() as int);
    if sync.requests.len() > 0 {
        let n = sync.requests.len() - 1;
        assert(sync.requests[n].start_block <= sync.target_head);
    }
}

/// The requests of a sync split the headers after the first head, in order, with no gap and no
/// overlap: each starts where the one before ends and asks for as many as the limit allows, the
/// last one for no more than up to the target. No more wait at once than may. When the sync is over
/// without a failure, there are as many requests as it takes to reach the target, and no more.
pub proof fn law_requests_split_the_range(sync: SyncView)
    requires
        sync.valid(),
        sync.request_limit > 0,
        sync.first_head <= sync.target_head,
    ensures
        missing(sync.batches) <= sync.max_concurrent_limit,
        forall|i: int|
            0 <= i < sync.requests.len() ==> {
                &&& (#[trigger] sync.requests[i]).start_block == sync.first_head + 1 + i
                    * sync.request_limit
                &&& sync.requests[i].limit == smaller(
                    sync.request_limit as int,
                    sync.target_head + 1 - sync.requests[i].start_block,
                )
                &&& sync.requests[i].start_block <= sync.target_head
            },
        forall|i: int, j: int|
            0 <= i < j < sync.requests.len() ==> (#[trigger] sync.requests[i]).start_block
                + sync.requests[i].limit <= (#[trigger] sync.requests[j]).start_block,
        sync.failure is None && sync.max_concurrent_limit > 0 && !sync.may_request()
            && sync.awaited() == 0 ==> {
            &&& sync.requests.len() * sync.request_limit >= sync.target_head - sync.first_head
            &&& sync.requests.len() * sync.request_limit < sync.target_head - sync.first_head
                + sync.request_limit
        },
{
    reveal(start_of);
    let limit = sync.request_limit as int;
    let count = sync.requests.len() as int;
    assert forall|i: int, j: int| 0 <= i < j < count implies (
    #[trigger] sync.requests[i]).start_block + sync.requests[i].limit <= (
    #[trigger] sync.requests[j]).start_block by {
        assert(i * limit + limit <= j * limit) by (nonlinear_arith)
            requires
                i < j,
                limit > 0,
        ;
    }
    lemma_asked_before(sync.first_head, sync.requests, count);
    if sync.failure is None && sync.max_concurrent_limit > 0 && !sync.may_request()
        && sync.awaited() == 0 {
        law_done_means_all_was_asked_for(sync);
        if count > 0 {
            let last = sync.requests[count - 1];
            assert(last.start_block == sync.first_head + 1 + (count - 1) * limit);
            assert((count - 1) * limit + limit == count * limit) by (nonlinear_arith);
        }
    }
}

/// Every request but an empty one brings the sync closer to the target.
pub proof fn law_requests_make_progress(sync: SyncView)
    requires
        sync.valid(),
        sync.may_request(),
        sync.request_limit > 0,
    ensures
        sync.requested().valid(),
        sync.local_head < sync.requested().local_head <= sync.target_head,
{
    lemma_requested_is_valid(sync);
}

/// A failure after the first request loses nothing that comes before it: the sync still ends with
/// headers, those of all requests before the earliest one that failed. A failure of the first
/// request is what the sync ends with.
pub proof fn law_failures_keep_what_comes_before(
    sync: SyncView,
    index: usize,
    error: SyncHeaderError,
)
    requires
        sync.valid(),
        sync.waits_for(index as int),
    ensures
        sync.failed(index, error).end() == smaller(index as int, sync.end()),
        0 < sync.failed(index, error).end() ==> sync.failed(index, error).output() == Ok::<
            Seq<HeaderView>,
            SyncHeaderError,
        >(joined(sync.batches.take(smaller(index as int, sync.end())))),
        index == 0 && sync.end() > 0 ==> sync.failed(index, error).output() == Err::<
            Seq<HeaderView>,
            SyncHeaderError,
        >(error),
{
}

/// No step of a sync changes where it begins, where it is to end, or its limits.
pub proof fn law_steps_keep_the_range(
    sync: SyncView,
    index: usize,
    response: Result<Seq<HeaderView>, RequestError>,
)
    ensures
        sync.requested().first_head == sync.first_head,
        sync.requested().target_head == sync.target_head,
        sync.requested().request_limit == sync.request_limit,
        sync.requested().max_concurrent_limit == sync.max_concurrent_limit,
        sync.answered(index, response).first_head == sync.first_head,
        sync.answered(index, response).target_head == sync.target_head,
        sync.answered(index, response).request_limit == sync.request_limit,
        sync.answered(index, response).max_concurrent_limit == sync.max_concurrent_limit,
        sync.answered(index, response).local_head == sync.local_head,
        sync.answered(index, response).requests == sync.requests,
{
}

/// A request is sent exactly while none has failed, fewer responses are missing than may be, and
/// not all up to the target was asked for. It asks for the headers after those that were asked for,
/// as many as the limit allows, but none beyond the target.
pub proof fn law_next_request_goes_on(sync: SyncView)
    ensures
        sync.may_request() <==> sync.failure is None && missing(sync.batches)
            < sync.max_concurrent_limit && sync.local_head < sync.target_head,
        sync.local_head < sync.target_head ==> {
            let request = sync.next_request();
            let after = sync.requested();
            &&& request.start_block == sync.local_head + 1
            &&& request.limit <= sync.request_limit
            &&& request.start_block + request.limit - 1 <= sync.target_head
            &&& request.limit == sync.request_limit || request.start_block + request.limit - 1
                == sync.target_head
            &&& after.local_head == sync.local_head + request.limit
            &&& after.requests == sync.requests.push(request)
            &&& after.batches == sync.batches.push(None)
            &&& after.failure == sync.failure
        },
{
}

/// The headers of a response are kept for its request, as they came; the others stay. A response
/// without headers, or a failure, is noted, unless one of an earlier request was. Nothing else
/// changes.
pub proof fn law_response_is_kept(
    sync: SyncView,
    index: usize,
    response: Result<Seq<HeaderView>, RequestError>,
    other: int,
)
    requires
        index < sync.batches.len(),
        0 <= other < sync.batches.len(),
        sync.failure matches Some(failure) ==> failure.0 < sync.batches.len(),
    ensures
        sync.answered(index, response).batches.len() == sync.batches.len(),
        response matches Ok(headers) ==> (headers.len() > 0 ==> {
            let after = sync.answered(index, response);
            &&& after.batches[index as int] == Some(headers)
            &&& other != index ==> after.batches[other] == sync.batches[other]
            &&& after.failure == sync.failure
        }),
        !(response matches Ok(headers) && headers.len() > 0) ==> {
            let after = sync.answered(index, response);
            let cause = match response {
                Ok(_) => SyncHeaderError::EmptyResponse,
                Err(e) => SyncHeaderError::RequestError(e),
            };
            &&& after.batches == sync.batches
            &&& after.failure == if sync.failure matches Some(failure) && failure.0 <= index {
                sync.failure
            } else {
                Some((index, cause))
            }
        },
        sync.waits_for(other) <==> sync.batches[other] is None,
{
}

/// What comes out of a sync: with no failure, the headers of all responses; with a failure of the
/// first request, that failure; and with a failure of a later one, the headers of the responses
/// before it.
pub proof fn law_output_ends_at_the_failure(
    sync: SyncView,
    batches: Seq<Option<Seq<HeaderView>>>,
    headers: Seq<HeaderView>,
)
    ensures
        sync.failure is None ==> sync.output() == Ok::<Seq<HeaderView>, SyncHeaderError>(
            joined(sync.batches),
        ),
        sync.failure matches Some(failure) ==> sync.output() == if failure.0 == 0 {
            Err(failure.1)
        } else {
            Ok(joined(sync.batches.take(failure.0 as int)))
        },
        joined(Seq::empty()) == Seq::<HeaderView>::empty(),
        joined(batches.push(Some(headers))) == joined(batches) + headers,
        sync.failure is None ==> sync.awaited() == missing(sync.batches),
        sync.failure matches Some(failure) ==> sync.awaited() == missing(
            sync.batches.take(failure.0 as int),
        ),
{
    assert(sync.batches.take(sync.batches.len() as int) =~= sync.batches);
    assert(batches.push(Some(headers)).drop_last() =~= batches);
}

/// The responses that are missing are counted: a further request adds one, a response takes one
/// away, and none is missing exactly if all are there.
pub proof fn law_missing_responses_are_counted(
    batches: Seq<Option<Seq<HeaderView>>>,
    headers: Seq<HeaderView>,
    i: int,
)
    ensures
        missing(Seq::<Option<Seq<HeaderView>>>::empty()) == 0,
        missing(batches.push(None)) == missing(batches) + 1,
        missing(batches.push(Some(headers))) == missing(batches),
        0 <= i < batches.len() && batches[i] is None ==> missing(batches) > 0 && missing(
            batches.update(i, Some(headers)),
        ) == missing(batches) - 1,
        0 <= i < batches.len() && missing(batches) == 0 ==> batches[i] is Some,
{
    assert(batches.push(None).drop_last() =~= batches);
    assert(batches.push(Some(headers)).drop_last() =~= batches);
    if 0 <= i < batches.len() {
        if batches[i] is None {
            lemma_missing_update(batches, i, headers);
        }
        if missing(batches) == 0 {
            lemma_none_missing(batches, i);
        }
    }
}

/// Each sync error has a text of its own.
pub proof fn law_sync_errors_tell_their_kind(error: SyncHeaderError, res: String)
    requires
        call_ensures(SyncHeaderError::message, (&error,), res),
    ensures
        match error {
            SyncHeaderError::HeaderInvalid => res@ == "Header is invalid."@,
            SyncHeaderError::EmptyResponse => res@ == "Response is empty."@,
            SyncHeaderError::RequestError(_) => res@ == "Request erorr."@,
        },
{
}

/// A sync begins and ends where it was told to, asks the peer that it was given, through the
/// provider that it was given, within the limits that it was given.
pub proof fn law_sync_is_built_as_it_was_set<H, Peer>(
    provider: H,
    local_head: u64,
    target_head: u64,
    peer: Peer,
    request_limit: u64,
    max_concurrent_limit: usize,
    steps: (
        SyncHeaderBuilder<H, Peer>,
        SyncHeaderBuilder<H, Peer>,
        SyncHeaderBuilder<H, Peer>,
        SyncHeaderBuilder<H, Peer>,
        SyncHeaderBuilder<H, Peer>,
        SyncHeaderBuilder<H, Peer>,
        SyncHeaderBuilder<H, Peer>,
    ),
    sync: SyncHeader<H, Peer>,
)
    requires
        call_ensures(SyncHeaderBuilder::<H, Peer>::provider, (steps.0, provider), steps.1),
        call_ensures(
            SyncHeaderBuilder::<H, Peer>::local_head_block,
            (steps.1, local_head),
            steps.2,
        ),
        call_ensures(SyncHeaderBuilder::<H, Peer>::target_head, (steps.2, target_head), steps.3),
        call_ensures(SyncHeaderBuilder::<H, Peer>::peer_id, (steps.3, peer), steps.4),
        call_ensures(
            SyncHeaderBuilder::<H, Peer>::request_limit,
            (steps.4, request_limit),
            steps.5,
        ),
        call_ensures(
            SyncHeaderBuilder::<H, Peer>::max_concurrent_limit,
            (steps.5, max_concurrent_limit),
            steps.6,
        ),
        call_ensures(SyncHeaderBuilder::<H, Peer>::build, (steps.6,), sync),
    ensures
        sync.inv(),
        sync.source() == (provider, peer),
        sync.view().first_head == local_head,
        sync.view().local_head == local_head,
        sync.view().target_head == target_head,
        sync.view().request_limit == request_limit,
        sync.view().max_concurrent_limit == max_concurrent_limit,
        sync.view().requests.len() == 0,
        sync.view().batches.len() == 0,
        sync.view().failure is None,
{
}

/// What a sync does next: it sends a request while it may, for the headers after those that it has
/// asked for; otherwise it waits while responses are missing that come out; and otherwise it is
/// over, with the headers of the responses before the earliest failure.
pub proof fn law_sync_asks_waits_and_ends<H, Peer>(sync: &mut SyncHeader<H, Peer>, res: SyncStep)
    requires
        old(sync).inv(),
        call_ensures(SyncHeader::<H, Peer>::poll, (sync,), res),
    ensures
        final(sync).inv(),
        final(sync).source() == old(sync).source(),
        ({
            let before = old(sync).view();
            let after = final(sync).view();
            let end = match before.failure {
                Some(failure) => failure.0 as int,
                None => before.batches.len() as int,
            };
            let may = before.failure is None && missing(before.batches)
                < before.max_concurrent_limit && before.local_head < before.target_head;
            match res {
                SyncStep::Request { index, request } => {
                    &&& may
                    &&& index == before.batches.len()
                    &&& request.start_block == before.local_head + 1
                    &&& request.limit <= before.request_limit
                    &&& request.start_block + request.limit - 1 <= before.target_head
                    &&& request.limit == before.request_limit || request.start_block
                        + request.limit - 1 == before.target_head
                    &&& after.local_head == before.local_head + request.limit
                    &&& after.batches == before.batches.push(None)
                    &&& after.requests == before.requests.push(request)
                    &&& after.failure == before.failure
                    &&& after.first_head == before.first_head
                    &&& after.target_head == before.target_head
                    &&& after.request_limit == before.request_limit
                    &&& after.max_concurrent_limit == before.max_concurrent_limit
                },
                SyncStep::Wait => !may && missing(before.batches.take(end)) > 0 && after == before,
                SyncStep::Done { output } => {
                    &&& !may
                    &&& missing(before.batches.take(end)) == 0
                    &&& after == before
                    &&& match output {
                        Ok(headers) => !(before.failure matches Some(failure) && failure.0 == 0)
                            && header_views(headers@) == joined(before.batches.take(end)),
                        Err(e) => before.failure matches Some(failure) && failure.0 == 0
                            && failure.1 == e,
                    }
                },
            }
        }),
{
}

/// What a sync makes of a response: headers are kept for the request that they answer; none, or a
/// failure, counts if no earlier request failed.
pub proof fn law_sync_takes_responses<H, Peer>(
    sync: &mut SyncHeader<H, Peer>,
    index: usize,
    response: RequestResponse<Vec<Header>>,
    other: int,
)
    requires
        old(sync).inv(),
        index < old(sync).view().batches.len(),
        old(sync).view().batches[index as int] is None,
        0 <= other < old(sync).view().batches.len(),
        call_ensures(SyncHeader::<H, Peer>::on_response, (sync, index, response), ()),
    ensures
        final(sync).inv(),
        final(sync).source() == old(sync).source(),
        final(sync).view().requests == old(sync).view().requests,
        final(sync).view().local_head == old(sync).view().local_head,
        final(sync).view().first_head == old(sync).view().first_head,
        final(sync).view().target_head == old(sync).view().target_head,
        final(sync).view().batches.len() == old(sync).view().batches.len(),
        other != index ==> final(sync).view().batches[other] == old(sync).view().batches[other],
        response matches Ok(headers) ==> (headers@.len() > 0 ==> {
            &&& final(sync).view().batches[index as int] == Some(header_views(headers@))
            &&& final(sync).view().failure == old(sync).view().failure
        }),
        !(response matches Ok(headers) && headers@.len() > 0) ==> {
            &&& final(sync).view().batches == old(sync).view().batches
            &&& final(sync).view().failure == if old(sync).view().failure matches Some(failure)
                && failure.0 <= index {
                old(sync).view().failure
            } else {
                Some(
                    (
                        index,
                        match response {
                            Ok(_) => SyncHeaderError::EmptyResponse,
                            Err(e) => SyncHeaderError::RequestError(e),
                        },
                    ),
                )
            }
        },
{
    old(sync).lemma_inv();
    law_response_is_kept(old(sync).view(), index, response_view(response), other);
}

} // verus!
