use simb::interface::{Header, HeadersRequest, RequestError, RequestResponse};
use simb::tasks::sync_header::{
    SyncHeader, SyncHeaderBuilder, SyncHeaderError, SyncHeaderOutput, SyncStep,
};

trait Headers {
    fn get_headers(&self, peer: u64, request: HeadersRequest) -> RequestResponse<Vec<Header>>;
}

struct MockHeadersProvider {}

impl Headers for MockHeadersProvider {
    fn get_headers(&self, _peer: u64, request: HeadersRequest) -> RequestResponse<Vec<Header>> {
        // Generate mock data for testing purposes
        let mut headers = vec![];
        for i in 0..request.limit {
            headers.push(Header {
                number: i + request.start_block,
                ..Default::default()
            });
        }
        Ok(headers)
    }
}

struct EmptyProvider {}

impl Headers for EmptyProvider {
    fn get_headers(&self, _peer: u64, _request: HeadersRequest) -> RequestResponse<Vec<Header>> {
        Ok(vec![])
    }
}

struct FailingProvider {}

impl Headers for FailingProvider {
    fn get_headers(&self, _peer: u64, _request: HeadersRequest) -> RequestResponse<Vec<Header>> {
        Err(RequestError::Timeout)
    }
}

/// Runs a sync; `latest_first` says which of the waiting requests is answered first.
fn run<H: Headers>(mut sync: SyncHeader<H, u64>, latest_first: bool) -> SyncHeaderOutput {
    let mut waiting: Vec<(usize, HeadersRequest)> = vec![];
    loop {
        match sync.poll() {
            SyncStep::Request { index, request } => waiting.push((index, request)),
            SyncStep::Done { output } => return output,
            SyncStep::Wait => {
                let (index, request) = if latest_first {
                    waiting.pop().unwrap()
                } else {
                    waiting.remove(0)
                };
                let response = sync.provider().get_headers(*sync.peer_id(), request);
                sync.on_response(index, response);
            }
        }
    }
}

#[test]
fn test_calculation_correct() {
    for latest_first in [false, true] {
        let local_head_block = 0;
        let request_limit = 7;
        let target_head = 1000;
        let sync_header = SyncHeaderBuilder::default()
            .provider(MockHeadersProvider {})
            .local_head_block(local_head_block)
            .target_head(target_head)
            .peer_id(5)
            .request_limit(request_limit)
            .build();

        let result = run(sync_header, latest_first).unwrap();

        assert_eq!(result.len(), 1000);

        // preserved order
        for i in local_head_block + 1..target_head + 1 {
            assert_eq!(result[i as usize - 1].number, i);
        }
    }
}

#[test]
fn test_empty_response() {
    let local_head_block = 0;
    let request_limit = 7;
    let target_head = 1000;
    let sync_header = SyncHeaderBuilder::default()
        .provider(EmptyProvider {})
        .local_head_block(local_head_block)
        .target_head(target_head)
        .peer_id(5)
        .request_limit(request_limit)
        .build();

    let err = run(sync_header, false).unwrap_err();
    match err {
        SyncHeaderError::EmptyResponse => {}
        _ => panic!("Expect empty response error"),
    }
}

#[test]
fn a_failed_request_ends_the_sync() {
    let sync_header = SyncHeaderBuilder::default()
        .provider(FailingProvider {})
        .target_head(3)
        .peer_id(5)
        .build();
    assert_eq!(
        run(sync_header, false),
        Err(SyncHeaderError::RequestError(RequestError::Timeout))
    );
}

fn numbered(number: u64) -> Vec<Header> {
    vec![Header {
        number,
        ..Header::default()
    }]
}

#[test]
fn a_later_failure_keeps_what_comes_before_it() {
    let mut sync = SyncHeaderBuilder::default()
        .provider(())
        .target_head(100)
        .peer_id(5u64)
        .request_limit(1)
        .max_concurrent_limit(5)
        .build();
    for _ in 0..5 {
        assert!(matches!(sync.poll(), SyncStep::Request { .. }));
    }
    sync.on_response(4, Ok(numbered(5)));
    sync.on_response(3, Err(RequestError::Timeout));
    // no more requests are sent, and what comes before the failure is awaited
    assert_eq!(sync.poll(), SyncStep::Wait);
    sync.on_response(0, Ok(numbered(1)));
    assert_eq!(sync.poll(), SyncStep::Wait);
    // an earlier failure counts
    sync.on_response(2, Ok(vec![]));
    assert_eq!(sync.poll(), SyncStep::Wait);
    sync.on_response(1, Ok(numbered(2)));
    let mut headers = numbered(1);
    headers.extend(numbered(2));
    assert_eq!(sync.poll(), SyncStep::Done { output: Ok(headers) });
}

#[test]
fn a_failure_of_the_first_request_is_the_outcome() {
    let mut sync = SyncHeaderBuilder::default()
        .provider(())
        .target_head(3)
        .peer_id(5u64)
        .request_limit(1)
        .build();
    for _ in 0..3 {
        assert!(matches!(sync.poll(), SyncStep::Request { .. }));
    }
    sync.on_response(1, Ok(numbered(2)));
    sync.on_response(2, Err(RequestError::Timeout));
    sync.on_response(0, Ok(vec![]));
    assert_eq!(
        sync.poll(),
        SyncStep::Done {
            output: Err(SyncHeaderError::EmptyResponse)
        }
    );
}

#[test]
fn requests_are_cut_at_the_limit_and_at_the_target() {
    let mut sync = SyncHeaderBuilder::default()
        .provider(())
        .local_head_block(10)
        .target_head(25)
        .peer_id(5u64)
        .request_limit(7)
        .max_concurrent_limit(10)
        .build();
    let mut requests = vec![];
    while let SyncStep::Request { index, request } = sync.poll() {
        assert_eq!(index, requests.len());
        requests.push((request.start_block, request.limit));
    }
    assert_eq!(requests, vec![(11, 7), (18, 7), (25, 1)]);
    assert_eq!(sync.poll(), SyncStep::Wait);
}

#[test]
fn no_more_requests_wait_than_may() {
    let mut sync = SyncHeaderBuilder::default()
        .provider(())
        .target_head(100)
        .peer_id(5u64)
        .request_limit(1)
        .max_concurrent_limit(2)
        .build();
    assert!(matches!(sync.poll(), SyncStep::Request { index: 0, .. }));
    assert!(matches!(sync.poll(), SyncStep::Request { index: 1, .. }));
    assert_eq!(sync.poll(), SyncStep::Wait);
    let header = Header {
        number: 2,
        ..Header::default()
    };
    assert_eq!(sync.on_header_response(1, vec![header]), Ok(()));
    assert_eq!(
        sync.poll(),
        SyncStep::Request {
            index: 2,
            request: HeadersRequest {
                limit: 1,
                start_block: 3
            }
        }
    );
    assert_eq!(sync.poll(), SyncStep::Wait);
}

#[test]
fn a_sync_to_the_local_head_is_done_at_once() {
    for target in [0, 4] {
        let mut sync = SyncHeaderBuilder::default()
            .provider(())
            .local_head_block(4)
            .target_head(target)
            .peer_id(5u64)
            .build();
        assert_eq!(sync.poll(), SyncStep::Done { output: Ok(vec![]) });
    }
}

#[test]
fn the_defaults_of_a_sync() {
    let mut sync = SyncHeaderBuilder::default()
        .provider(())
        .target_head(u64::MAX)
        .peer_id(5u64)
        .build();
    for i in 0..10 {
        assert_eq!(
            sync.poll(),
            SyncStep::Request {
                index: i,
                request: HeadersRequest {
                    limit: 1000,
                    start_block: i as u64 * 1000 + 1
                }
            }
        );
    }
    assert_eq!(sync.poll(), SyncStep::Wait);
}

#[test]
fn the_texts_of_sync_errors() {
    assert_eq!(SyncHeaderError::HeaderInvalid.message(), "Header is invalid.");
    assert_eq!(SyncHeaderError::EmptyResponse.message(), "Response is empty.");
    assert_eq!(
        SyncHeaderError::RequestError(RequestError::Timeout).message(),
        "Request erorr."
    );
}
