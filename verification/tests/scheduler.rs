use comic_reader::error::{DecodeError, ErrorKind, PageReadError};
use comic_reader::page::DecodedPage;
use comic_reader::scheduler::{
    worker_count, Completion, DecodeTicket, Job, Priority, RequestOutcome, Scheduler,
    TicketState,
};

fn page() -> DecodedPage {
    DecodedPage::from_rgba(1, 1, vec![0; 4]).unwrap()
}

fn ticket_of(outcome: RequestOutcome) -> DecodeTicket {
    match outcome {
        RequestOutcome::Pending(t) => t,
        other => panic!("no ticket: {:?}", other),
    }
}

fn running(scheduler: &Scheduler, page: usize) -> usize {
    let mut n = 0;
    for i in 0..scheduler.ticket_count() {
        let t = scheduler.ticket(i);
        if t.page == page && t.state == TicketState::Running {
            n += 1;
        }
    }
    n
}

#[test]
fn a_cached_page_is_completed_at_once() {
    let mut s = Scheduler::new();
    assert_eq!(s.request(3, Priority::Visible, true), RequestOutcome::Completed);
    assert_eq!(s.ticket_count(), 0);
    assert!(s.is_idle());
}

#[test]
fn a_second_request_joins_the_first() {
    let mut s = Scheduler::new();
    let first = ticket_of(s.request(3, Priority::Prefetch, false));
    let second = ticket_of(s.request(3, Priority::Background, false));
    assert_eq!(first, second);
    assert_eq!(first.page, 3);
    assert_eq!(s.ticket_count(), 1);
    assert_eq!(s.ticket_for(3).unwrap().priority, Priority::Prefetch);
    let third = ticket_of(s.request(3, Priority::Visible, false));
    assert_eq!(first, third);
    assert_eq!(s.ticket_for(3).unwrap().priority, Priority::Visible);
    assert!(s.in_flight(3));
    assert!(!s.in_flight(4));
}

#[test]
fn jobs_come_by_urgency_then_by_age() {
    let mut s = Scheduler::new();
    s.request(10, Priority::Background, false);
    s.request(11, Priority::Prefetch, false);
    s.request(12, Priority::Visible, false);
    s.request(13, Priority::Prefetch, false);
    s.request(14, Priority::Visible, false);
    let order: Vec<usize> = (0..5).map(|_| s.next_job().unwrap().ticket.page).collect();
    assert_eq!(order, vec![12, 14, 11, 13, 10]);
    assert!(s.next_job().is_none());
}

#[test]
fn raising_the_priority_keeps_the_age() {
    let mut s = Scheduler::new();
    s.request(1, Priority::Prefetch, false);
    s.request(2, Priority::Visible, false);
    s.request(1, Priority::Visible, false);
    assert_eq!(s.next_job().unwrap().ticket.page, 1);
    assert_eq!(s.next_job().unwrap().ticket.page, 2);
}

#[test]
fn a_decoded_page_comes_back_to_be_cached() {
    let mut s = Scheduler::new();
    s.request(5, Priority::Visible, false);
    let job = s.next_job().unwrap();
    assert_eq!(job.generation, 0);
    assert!(!s.is_idle());
    match s.complete(job, Ok(page())) {
        Completion::Decoded(p, image) => {
            assert_eq!(p, 5);
            assert_eq!(image.width(), 1);
        }
        _ => panic!("the page was wanted"),
    }
    assert_eq!(s.ticket_count(), 0);
    assert!(s.is_idle());
}

#[test]
fn a_failure_stays_until_the_page_is_requested_again() {
    let mut s = Scheduler::new();
    s.request(5, Priority::Visible, false);
    let job = s.next_job().unwrap();
    assert!(matches!(
        s.complete(job, Err(ErrorKind::FormatError)),
        Completion::Failed(5, ErrorKind::FormatError)
    ));
    assert_eq!(s.failure(5), Some(ErrorKind::FormatError));
    assert!(!s.in_flight(5));
    assert!(s.is_idle());
    assert!(s.next_job().is_none());
    // an explicit request tries again, under a new number
    let again = ticket_of(s.request(5, Priority::Visible, false));
    assert_ne!(again.id, job.ticket.id);
    assert_eq!(s.failure(5), None);
    assert_eq!(s.next_job().unwrap().ticket, again);
}

#[test]
fn a_cancelled_waiting_decode_never_runs() {
    let mut s = Scheduler::new();
    let t = ticket_of(s.request(5, Priority::Prefetch, false));
    s.cancel(t);
    assert_eq!(s.ticket_count(), 0);
    assert!(s.next_job().is_none());
}

#[test]
fn a_cancelled_running_decode_ends_unheard() {
    let mut s = Scheduler::new();
    let t = ticket_of(s.request(5, Priority::Prefetch, false));
    let job = s.next_job().unwrap();
    s.cancel(t);
    assert!(s.in_flight(5));
    assert!(matches!(s.complete(job, Ok(page())), Completion::Discarded));
    assert_eq!(s.ticket_count(), 0);
}

#[test]
fn a_page_wanted_again_while_cancelled_is_decoded_once_more() {
    let mut s = Scheduler::new();
    let t = ticket_of(s.request(5, Priority::Prefetch, false));
    let job = s.next_job().unwrap();
    s.cancel(t);
    let again = ticket_of(s.request(5, Priority::Visible, false));
    assert_eq!(again, t);
    assert_eq!(running(&s, 5), 1);
    // nothing new starts while the cancelled decode runs
    assert!(s.next_job().is_none());
    assert!(matches!(s.complete(job, Ok(page())), Completion::Discarded));
    let second = s.next_job().unwrap();
    assert_eq!(second.ticket.page, 5);
    assert!(matches!(s.complete(second, Ok(page())), Completion::Decoded(5, _)));
}

#[test]
fn no_page_is_ever_decoded_twice_at_once() {
    let mut s = Scheduler::new();
    let mut jobs: Vec<Job> = Vec::new();
    // a user flipping back and forth over four pages
    for round in 0..400usize {
        let p = round % 4;
        match round % 7 {
            0 | 1 | 2 => {
                s.request(p, Priority::Visible, false);
            }
            3 => {
                if let Some(t) = s.ticket_for(p) {
                    s.cancel(DecodeTicket { id: t.id, page: t.page });
                }
            }
            4 | 5 => {
                if let Some(job) = s.next_job() {
                    jobs.push(job);
                }
            }
            _ => {
                if !jobs.is_empty() {
                    let job = jobs.remove(0);
                    let _ = s.complete(job, Ok(page()));
                }
            }
        }
        for q in 0..4 {
            assert!(running(&s, q) <= 1);
            let tickets = (0..s.ticket_count()).filter(|i| s.ticket(*i).page == q).count();
            assert!(tickets <= 1);
        }
    }
}

#[test]
fn a_result_for_an_unknown_job_is_thrown_away() {
    let mut s = Scheduler::new();
    let job = Job { ticket: DecodeTicket { id: 77, page: 1 }, generation: 0 };
    assert!(matches!(s.complete(job, Ok(page())), Completion::Discarded));
    s.request(1, Priority::Visible, false);
    // the decode has not started yet
    let early = Job { ticket: DecodeTicket { id: 0, page: 1 }, generation: 0 };
    assert!(matches!(s.complete(early, Ok(page())), Completion::Discarded));
    assert!(s.in_flight(1));
}

#[test]
fn a_change_of_archive_orphans_what_runs() {
    let mut s = Scheduler::new();
    s.request(1, Priority::Visible, false);
    s.request(2, Priority::Visible, false);
    let job = s.next_job().unwrap();
    s.archive_changed();
    assert_eq!(s.generation(), 1);
    // the waiting decode is gone, the running one is still counted
    assert_eq!(s.ticket_count(), 1);
    assert!(!s.is_idle());
    assert!(s.next_job().is_none());
    assert!(matches!(s.complete(job, Ok(page())), Completion::Discarded));
    assert!(s.is_idle());
    // the same page of the new archive is decoded afresh
    s.request(1, Priority::Visible, false);
    let fresh = s.next_job().unwrap();
    assert_eq!(fresh.generation, 1);
    assert!(matches!(s.complete(fresh, Ok(page())), Completion::Decoded(1, _)));
}

#[test]
fn a_stale_generation_is_thrown_away() {
    let mut s = Scheduler::new();
    s.request(1, Priority::Visible, false);
    let job = s.next_job().unwrap();
    let stale = Job { ticket: job.ticket, generation: job.generation + 1 };
    assert!(matches!(s.complete(stale, Ok(page())), Completion::Discarded));
    assert_eq!(s.ticket_count(), 0);
}

#[test]
fn shutdown_refuses_requests_and_drains() {
    let mut s = Scheduler::new();
    s.request(1, Priority::Visible, false);
    s.request(2, Priority::Visible, false);
    s.request(3, Priority::Prefetch, false);
    let a = s.next_job().unwrap();
    let b = s.next_job().unwrap();
    s.shutdown();
    assert!(!s.is_accepting());
    assert_eq!(s.request(9, Priority::Visible, false), RequestOutcome::Refused);
    assert_eq!(s.request(9, Priority::Visible, true), RequestOutcome::Refused);
    assert!(s.next_job().is_none());
    assert_eq!(s.ticket_count(), 2);
    assert!(matches!(s.complete(a, Ok(page())), Completion::Discarded));
    assert!(matches!(s.complete(b, Err(ErrorKind::IoError)), Completion::Discarded));
    assert!(s.is_idle());
    assert_eq!(s.ticket_count(), 0);
}

#[test]
fn far_prefetches_are_cancelled_and_near_ones_stay() {
    let mut s = Scheduler::new();
    s.request(2, Priority::Prefetch, false);
    s.request(30, Priority::Prefetch, false);
    s.request(31, Priority::Visible, false);
    s.request(60, Priority::Prefetch, false);
    s.request(36, Priority::Prefetch, false);
    let first = s.next_job().unwrap();
    assert_eq!(first.ticket.page, 31);
    let second = s.next_job().unwrap();
    assert_eq!(second.ticket.page, 2);
    // centre 20, window 16: pages 4 to 36 stay
    let cancelled = s.cancel_far_prefetches(20, 16);
    assert_eq!(cancelled, vec![2, 60]);
    assert!(s.in_flight(30));
    assert!(s.in_flight(31));
    assert!(s.in_flight(36));
    assert!(!s.in_flight(60));
    // the running prefetch of page 2 ends unheard
    assert!(matches!(s.complete(second, Ok(page())), Completion::Discarded));
    assert!(s.cancel_far_prefetches(20, 16).is_empty());
}

#[test]
fn priorities_are_ordered() {
    assert_eq!(Priority::Background.level(), 0);
    assert_eq!(Priority::Prefetch.level(), 1);
    assert_eq!(Priority::Visible.level(), 2);
    assert_eq!(Priority::Prefetch.max(Priority::Visible), Priority::Visible);
    assert_eq!(Priority::Prefetch.max(Priority::Background), Priority::Prefetch);
}

#[test]
fn error_kinds_keep_their_cause() {
    assert_eq!(ErrorKind::from_read(PageReadError::OutOfRange), ErrorKind::OutOfRange);
    assert_eq!(ErrorKind::from_read(PageReadError::IoError), ErrorKind::IoError);
    assert_eq!(ErrorKind::from_read(PageReadError::Corrupt), ErrorKind::Corrupt);
    assert_eq!(ErrorKind::from_decode(DecodeError::FormatError), ErrorKind::FormatError);
    assert_eq!(ErrorKind::from_decode(DecodeError::OutOfMemory), ErrorKind::OutOfMemory);
}

#[test]
fn one_hardware_thread_is_left_to_the_window() {
    assert_eq!(worker_count(8), 7);
    assert_eq!(worker_count(2), 1);
    assert_eq!(worker_count(1), 1);
    assert_eq!(worker_count(0), 1);
}
