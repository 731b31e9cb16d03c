use proposal_backend::Choice;
use proposal_backend::CreateProposal;
use proposal_backend::Principal;
use proposal_backend::ProposalStore;
use proposal_backend::VoteError;
use proposal_backend::MAX_RECORD_SIZE;

fn principal(tag: u8) -> Principal {
    Principal::from_bytes(vec![tag, tag, tag])
}

fn args(description: &str, is_active: bool) -> CreateProposal {
    CreateProposal { description: description.as_bytes().to_vec(), is_active }
}

#[test]
fn absent_key_reads_absent_and_create_returns_no_prior() {
    let mut store = ProposalStore::new();
    assert!(store.get_proposal(5).is_none());
    let prev = store.create_proposal(principal(1), 5, args("first", true));
    assert!(prev.is_none());
    let got = store.get_proposal(5).expect("just created");
    assert_eq!(got.description, b"first".to_vec());
    assert_eq!(got.approve, 0);
    assert_eq!(got.reject, 0);
    assert_eq!(got.pass, 0);
    assert!(got.is_active);
    assert!(got.voted.is_empty());
    assert_eq!(got.owner.bytes, principal(1).bytes);
}

#[test]
fn recreating_overwrites_and_returns_the_prior_record() {
    let mut store = ProposalStore::new();
    assert!(store.create_proposal(principal(1), 9, args("old text", true)).is_none());
    let prior = store
        .create_proposal(principal(2), 9, args("new text", false))
        .expect("a prior record");
    assert_eq!(prior.description, b"old text".to_vec());
    assert_eq!(prior.owner.bytes, principal(1).bytes);
    let now = store.get_proposal(9).expect("overwritten record");
    assert_eq!(now.description, b"new text".to_vec());
    assert!(!now.is_active);
    assert_eq!(now.owner.bytes, principal(2).bytes);
    assert_eq!(store.get_proposal_count(), 1);
}

#[test]
fn non_owner_edit_and_end_are_rejected_and_change_nothing() {
    let mut store = ProposalStore::new();
    store.create_proposal(principal(1), 3, args("keep me", true));
    let r = store.edit_proposal(principal(2), 3, args("tampered", false));
    assert!(matches!(r, Err(VoteError::AccessRejected)));
    let r = store.end_proposal(principal(2), 3);
    assert!(matches!(r, Err(VoteError::AccessRejected)));
    let got = store.get_proposal(3).expect("still there");
    assert_eq!(got.description, b"keep me".to_vec());
    assert!(got.is_active);
}

#[test]
fn owner_edit_replaces_text_and_activity_only() {
    let mut store = ProposalStore::new();
    store.create_proposal(principal(1), 3, args("draft", true));
    store.vote(principal(4), 3, Choice::Approve).expect("vote succeeds");
    store.edit_proposal(principal(1), 3, args("amended", false)).expect("owner may edit");
    let got = store.get_proposal(3).expect("still there");
    assert_eq!(got.description, b"amended".to_vec());
    assert!(!got.is_active);
    assert_eq!(got.approve, 1);
    assert_eq!(got.voted.len(), 1);
    assert_eq!(got.owner.bytes, principal(1).bytes);
}

#[test]
fn edit_may_reactivate_an_ended_proposal() {
    let mut store = ProposalStore::new();
    store.create_proposal(principal(1), 3, args("draft", true));
    store.end_proposal(principal(1), 3).expect("owner ends it");
    assert!(!store.get_proposal(3).unwrap().is_active);
    store.edit_proposal(principal(1), 3, args("revived", true)).expect("owner may edit");
    let got = store.get_proposal(3).unwrap();
    assert!(got.is_active);
    assert_eq!(got.description, b"revived".to_vec());
}

#[test]
fn missing_keys_give_no_such_proposal() {
    let mut store = ProposalStore::new();
    assert!(matches!(
        store.edit_proposal(principal(1), 8, args("x", true)),
        Err(VoteError::NoSuchProposal)
    ));
    assert!(matches!(store.end_proposal(principal(1), 8), Err(VoteError::NoSuchProposal)));
    assert!(matches!(store.vote(principal(1), 8, Choice::Pass), Err(VoteError::NoSuchProposal)));
}

#[test]
fn voting_twice_counts_once() {
    let mut store = ProposalStore::new();
    store.create_proposal(principal(1), 2, args("ballot", true));
    store.vote(principal(5), 2, Choice::Reject).expect("first vote succeeds");
    let after_first = store.get_proposal(2).expect("present");
    assert_eq!(after_first.approve, 0);
    assert_eq!(after_first.reject, 1);
    assert_eq!(after_first.pass, 0);
    assert_eq!(after_first.voted.len(), 1);
    assert_eq!(after_first.voted[0].bytes, principal(5).bytes);
    let r = store.vote(principal(5), 2, Choice::Approve);
    assert!(matches!(r, Err(VoteError::AlreadyVoted)));
    let after_second = store.get_proposal(2).expect("present");
    assert_eq!(after_second.approve, 0);
    assert_eq!(after_second.reject, 1);
    assert_eq!(after_second.pass, 0);
    assert_eq!(after_second.voted.len(), 1);
}

#[test]
fn owner_may_vote_too() {
    let mut store = ProposalStore::new();
    store.create_proposal(principal(1), 2, args("ballot", true));
    store.vote(principal(1), 2, Choice::Pass).expect("the owner is a voter like any other");
    assert_eq!(store.get_proposal(2).unwrap().pass, 1);
}

#[test]
fn inactive_proposal_refuses_votes_but_already_voted_wins() {
    let mut store = ProposalStore::new();
    store.create_proposal(principal(1), 4, args("closing", true));
    store.vote(principal(6), 4, Choice::Approve).expect("vote while active");
    store.end_proposal(principal(1), 4).expect("owner ends it");
    assert!(!store.get_proposal(4).unwrap().is_active);
    let fresh_caller = store.vote(principal(7), 4, Choice::Pass);
    assert!(matches!(fresh_caller, Err(VoteError::ProposalIsNotActive)));
    let repeat_caller = store.vote(principal(6), 4, Choice::Pass);
    assert!(matches!(repeat_caller, Err(VoteError::AlreadyVoted)));
    let got = store.get_proposal(4).unwrap();
    assert_eq!(got.approve, 1);
    assert_eq!(got.pass, 0);
    assert_eq!(got.voted.len(), 1);
}

#[test]
fn count_follows_distinct_keys_only() {
    let mut store = ProposalStore::new();
    assert_eq!(store.get_proposal_count(), 0);
    store.create_proposal(principal(1), 1, args("a", true));
    store.create_proposal(principal(1), 2, args("b", true));
    store.create_proposal(principal(2), 1, args("c", true));
    assert_eq!(store.get_proposal_count(), 2);
    store.create_proposal(principal(3), 100, args("d", false));
    assert_eq!(store.get_proposal_count(), 3);
}

#[test]
fn oversized_edit_fails_and_changes_nothing() {
    let mut store = ProposalStore::new();
    store.create_proposal(principal(1), 6, args("small", true));
    let huge = CreateProposal { description: vec![b'x'; MAX_RECORD_SIZE + 1], is_active: true };
    let r = store.edit_proposal(principal(1), 6, huge);
    assert!(matches!(r, Err(VoteError::UpdateFailed(_))));
    let got = store.get_proposal(6).expect("still there");
    assert_eq!(got.description, b"small".to_vec());
}

#[test]
fn create_fits_checks_the_bound() {
    let small = args("fits", true);
    assert!(ProposalStore::create_fits(&principal(1), &small));
    let big = CreateProposal { description: vec![b'x'; MAX_RECORD_SIZE], is_active: true };
    assert!(!ProposalStore::create_fits(&principal(1), &big));
}

#[test]
fn governance_scenario() {
    let mut store = ProposalStore::new();
    let a = principal(10);
    let b = principal(11);
    let c = principal(12);
    let prev = store.create_proposal(a.clone(), 1, args("Adopt budget", true));
    assert!(prev.is_none());
    store.vote(b.clone(), 1, Choice::Approve).expect("first vote by B succeeds");
    let got = store.get_proposal(1).unwrap();
    assert_eq!(got.approve, 1);
    assert_eq!(got.reject, 0);
    assert_eq!(got.pass, 0);
    assert_eq!(got.voted.len(), 1);
    assert_eq!(got.voted[0].bytes, b.bytes);
    let again = store.vote(b.clone(), 1, Choice::Reject);
    assert!(matches!(again, Err(VoteError::AlreadyVoted)));
    store.end_proposal(a.clone(), 1).expect("owner ends the proposal");
    assert!(!store.get_proposal(1).unwrap().is_active);
    let late = store.vote(c, 1, Choice::Pass);
    assert!(matches!(late, Err(VoteError::ProposalIsNotActive)));
    let tampering = store.edit_proposal(b, 1, args("hijacked", true));
    assert!(matches!(tampering, Err(VoteError::AccessRejected)));
}
