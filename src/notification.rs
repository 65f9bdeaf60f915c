use vstd::prelude::*;

verus! {

/// An operator alert.
#[derive(Debug, Clone)]
pub enum Notification {
    TapeOffline { tape_id: String, archive_ids: Vec<u128> },
    RestoreFailed { task_id: u128 },
    BundleFailed { bundle_id: u128 },
    RestoreCompleted { task_id: u128 },
}

/// Collects operator alerts for delivery to the configured sinks. Delivery
/// itself is best-effort and happens outside the library: `drain` hands over
/// what was queued.
pub struct NotificationService {
    webhook_url: Option<String>,
    mq_endpoint: Option<String>,
    outbox: Vec<Notification>,
}

impl NotificationService {
    /// The alerts queued and not yet drained, oldest first.
    pub closed spec fn queued(&self) -> Seq<Notification> {
        self.outbox@
    }

    pub closed spec fn webhook(&self) -> Option<String> {
        self.webhook_url
    }

    pub closed spec fn mq(&self) -> Option<String> {
        self.mq_endpoint
    }

    pub fn new(webhook_url: Option<String>, mq_endpoint: Option<String>) -> (r: Self)
        ensures
            r.queued() == Seq::<Notification>::empty(),
            r.webhook() == webhook_url,
            r.mq() == mq_endpoint,
    {
        NotificationService { webhook_url, mq_endpoint, outbox: Vec::new() }
    }

    /// Queues an alert that tape `tape_id` is offline, naming the bundles
    /// that wait for it.
    pub fn notify_offline_tape(&mut self, tape_id: &String, archive_ids: Vec<u128>)
        ensures
            final(self).queued() == old(self).queued().push(Notification::TapeOffline { tape_id: *tape_id, archive_ids }),
            final(self).webhook() == old(self).webhook(),
            final(self).mq() == old(self).mq(),
    {
        self.outbox.push(Notification::TapeOffline { tape_id: tape_id.clone(), archive_ids });
    }

    /// Queues an alert that recall task `task_id` completed.
    pub fn notify_restore_completed(&mut self, task_id: u128)
        ensures
            final(self).queued() == old(self).queued().push(Notification::RestoreCompleted { task_id }),
            final(self).webhook() == old(self).webhook(),
            final(self).mq() == old(self).mq(),
    {
        self.outbox.push(Notification::RestoreCompleted { task_id });
    }

    /// Queues an alert that recall task `task_id` failed.
    pub fn notify_restore_failed(&mut self, task_id: u128)
        ensures
            final(self).queued() == old(self).queued().push(Notification::RestoreFailed { task_id }),
            final(self).webhook() == old(self).webhook(),
            final(self).mq() == old(self).mq(),
    {
        self.outbox.push(Notification::RestoreFailed { task_id });
    }

    /// Queues an alert that bundle `bundle_id` failed.
    pub fn notify_bundle_failed(&mut self, bundle_id: u128)
        ensures
            final(self).queued() == old(self).queued().push(Notification::BundleFailed { bundle_id }),
            final(self).webhook() == old(self).webhook(),
            final(self).mq() == old(self).mq(),
    {
        self.outbox.push(Notification::BundleFailed { bundle_id });
    }

    /// Hands over the queued alerts, oldest first, and empties the queue.
    pub fn drain(&mut self) -> (r: Vec<Notification>)
        ensures
            r@ == old(self).queued(),
            final(self).queued() == Seq::<Notification>::empty(),
            final(self).webhook() == old(self).webhook(),
            final(self).mq() == old(self).mq(),
    {
        let mut out: Vec<Notification> = Vec::new();
        std::mem::swap(&mut out, &mut self.outbox);
        out
    }
}

} // verus!
