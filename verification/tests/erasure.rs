use polysemic::erasure::{
    AdapterError, ContractError, ErasureAdapter, ErasureCoordinator, ErasureReportStatus,
    ErasureRequest, StoreCapabilities, StoreDescriptor, StoreErasureResult, StoreErasureStatus,
};

struct StubAdapter {
    name: String,
    fail: bool,
    verified: bool,
}

impl StubAdapter {
    fn complete(name: &str) -> Self {
        Self {
            name: name.to_string(),
            fail: false,
            verified: true,
        }
    }

    fn failing(name: &str) -> Self {
        Self {
            name: name.to_string(),
            fail: true,
            verified: false,
        }
    }
}

impl ErasureAdapter for StubAdapter {
    fn store_name(&self) -> String {
        self.name.clone()
    }

    fn store_capabilities(&self) -> StoreCapabilities {
        StoreCapabilities::new(true, false, true)
    }

    fn name(&self) -> &str {
        &self.name
    }

    fn capabilities(&self) -> StoreCapabilities {
        StoreCapabilities::new(true, false, true)
    }

    fn health(&mut self) -> Result<(), AdapterError> {
        Ok(())
    }

    fn erase_subject(&mut self, request: &ErasureRequest) -> Result<StoreErasureResult, AdapterError> {
        if self.fail {
            Err(AdapterError::new("offline"))
        } else {
            Ok(StoreErasureResult::successful(
                &self.name,
                request,
                2,
                &format!("lethe://store/{}/proof", self.name),
            ))
        }
    }

    fn verify_subject_absent(&mut self, _subject: &str) -> Result<bool, AdapterError> {
        Ok(self.verified)
    }
}

struct WrongStore;

impl ErasureAdapter for WrongStore {
    fn store_name(&self) -> String {
        "postgres".to_string()
    }
    fn store_capabilities(&self) -> StoreCapabilities {
        StoreCapabilities::new(false, false, false)
    }
    fn name(&self) -> &str {
        "postgres"
    }
    fn capabilities(&self) -> StoreCapabilities {
        StoreCapabilities::new(false, false, false)
    }
    fn health(&mut self) -> Result<(), AdapterError> {
        Ok(())
    }
    fn erase_subject(&mut self, request: &ErasureRequest) -> Result<StoreErasureResult, AdapterError> {
        Ok(StoreErasureResult::successful("redis", request, 1, "proof"))
    }
    fn verify_subject_absent(&mut self, _subject: &str) -> Result<bool, AdapterError> {
        Ok(true)
    }
}

fn request() -> ErasureRequest {
    ErasureRequest::new("request-1", "user:1").unwrap()
}

#[test]
fn every_verified_store_completes_the_request() {
    let mut coordinator = ErasureCoordinator::new(vec![
        Box::new(StubAdapter::complete("postgres")),
        Box::new(StubAdapter::complete("redis")),
    ])
    .unwrap();

    let report = coordinator.erase_subject(&request());

    assert_eq!(report.status, ErasureReportStatus::Complete);
    assert!(report.complete());
    assert!(report.stores.iter().all(StoreErasureResult::complete));
}

#[test]
fn one_failed_store_is_a_partial_request() {
    let mut coordinator = ErasureCoordinator::new(vec![
        Box::new(StubAdapter::complete("postgres")),
        Box::new(StubAdapter::failing("redis")),
    ])
    .unwrap();

    let report = coordinator.erase_subject(&request());

    assert_eq!(report.status, ErasureReportStatus::Partial);
    assert_eq!(report.stores[1].status, StoreErasureStatus::Failed);
    assert_eq!(report.stores[1].error.as_deref(), Some("offline"));
}

#[test]
fn aggregate_receipt_is_independent_of_adapter_order() {
    let mut left = ErasureCoordinator::new(vec![
        Box::new(StubAdapter::complete("postgres")),
        Box::new(StubAdapter::complete("redis")),
    ])
    .unwrap();
    let mut right = ErasureCoordinator::new(vec![
        Box::new(StubAdapter::complete("redis")),
        Box::new(StubAdapter::complete("postgres")),
    ])
    .unwrap();

    assert_eq!(
        left.erase_subject(&request()).receipt,
        right.erase_subject(&request()).receipt
    );
}

#[test]
fn duplicate_adapter_names_are_rejected() {
    let result = ErasureCoordinator::new(vec![
        Box::new(StubAdapter::complete("same")),
        Box::new(StubAdapter::complete("same")),
    ]);

    assert!(matches!(result, Err(ContractError::DuplicateAdapter(_))));
}

#[test]
fn descriptors_expose_capabilities_without_store_access() {
    let coordinator =
        ErasureCoordinator::new(vec![Box::new(StubAdapter::complete("redis"))]).unwrap();

    assert_eq!(
        coordinator.stores(),
        vec![StoreDescriptor {
            name: "redis".to_string(),
            capabilities: StoreCapabilities::new(true, false, true),
        }]
    );
}

#[test]
fn empty_requests_and_coordinators_are_rejected() {
    assert_eq!(
        ErasureRequest::new("", "user:1"),
        Err(ContractError::EmptyRequestId)
    );
    assert_eq!(
        ErasureRequest::new("request-1", ""),
        Err(ContractError::EmptySubject)
    );
    assert!(matches!(
        ErasureCoordinator::new(Vec::new()),
        Err(ContractError::NoAdapters)
    ));
}

#[test]
fn invalid_adapter_result_becomes_a_named_failure() {
    let mut coordinator = ErasureCoordinator::new(vec![Box::new(WrongStore)]).unwrap();

    let report = coordinator.erase_subject(&request());

    assert_eq!(report.status, ErasureReportStatus::Failed);
    assert_eq!(report.stores[0].error.as_deref(), Some("store_mismatch"));
}

#[test]
fn no_verified_store_is_a_failed_request() {
    let mut coordinator = ErasureCoordinator::new(vec![
        Box::new(StubAdapter::failing("postgres")),
        Box::new(StubAdapter::failing("redis")),
    ])
    .unwrap();
    let report = coordinator.erase_subject(&request());
    assert_eq!(report.status, ErasureReportStatus::Failed);
    assert!(!report.complete());
}

#[test]
fn any_reordering_of_three_stores_gives_one_receipt() {
    let orders = [
        ["postgres", "redis", "qdrant"],
        ["qdrant", "postgres", "redis"],
        ["redis", "qdrant", "postgres"],
    ];
    let mut receipts = Vec::new();
    for order in orders {
        let adapters: Vec<Box<dyn ErasureAdapter>> = order
            .iter()
            .map(|name| {
                if *name == "redis" {
                    Box::new(StubAdapter::failing(name)) as Box<dyn ErasureAdapter>
                } else {
                    Box::new(StubAdapter::complete(name)) as Box<dyn ErasureAdapter>
                }
            })
            .collect();
        let mut coordinator = ErasureCoordinator::new(adapters).unwrap();
        let report = coordinator.erase_subject(&request());
        assert_eq!(report.status, ErasureReportStatus::Partial);
        assert!(report.receipt.starts_with("lethe://request/"));
        receipts.push(report.receipt);
    }
    assert_eq!(receipts[0], receipts[1]);
    assert_eq!(receipts[1], receipts[2]);
}
