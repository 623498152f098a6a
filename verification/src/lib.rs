//! A cooperative task executor for a userspace runtime whose kernel offers a
//! single blocking primitive: "wait until any of these handles is signaled".
//!
//! Work is submitted through a [`work_queue::WorkQueue`], a FIFO shared between
//! threads. A [`manager::WaitableManager`] owns the tasks and takes one step of
//! its event loop per call of [`manager::WaitableManager::turn`]: it either
//! handles the next work item, or reports that the queue is drained and says
//! whether the caller has to block on the kernel or is done.
//!
//! The bookkeeping is verified: the task registry never lets a retired
//! identity name a later task, the table of awaited handles keeps exactly the
//! handles that somebody waits on, and a signal resumes the waiters of its
//! handle, all of them, in the order in which they registered.

pub mod closed;
pub mod handle;
pub mod laws;
pub mod manager;
pub mod registry;
pub mod task;
pub mod waitables;
pub mod work_queue;
