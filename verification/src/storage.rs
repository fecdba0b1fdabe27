//! What the library asks of the file under a blob, and what the answers mean.
//!
//! A blob file is modelled by its image, the sequence of its bytes. A [`Request`] changes the
//! image in a known way, and a file that works answers it with a known [`Reply`].

use vstd::prelude::*;

use crate::error::VaultError;

verus! {

/// One thing to do with the file under a blob.
#[derive(Clone, Debug)]
pub enum Request {
    /// Take the exclusive advisory lock; it is held until the operation is over.
    Lock,
    /// Cut the file to no bytes.
    Truncate,
    /// Tell the length of the file.
    Length,
    /// Read exactly `length` bytes at `offset`.
    Read { offset: u64, length: usize },
    /// Write all of `bytes` at `offset`.
    Write { offset: u64, bytes: Vec<u8> },
    /// Wait until everything that was written is durable.
    Sync,
}

/// The answer to a [`Request`].
#[derive(Debug)]
pub enum Reply {
    /// It was done.
    Done,
    /// The length of the file.
    Length(u64),
    /// The bytes that were read.
    Bytes(Vec<u8>),
    /// It could not be done.
    Failed(std::io::Error),
}

/// What comes of handing a [`Reply`] to an operation: the operation asks on, or is over.
pub enum Step<O, T> {
    Ask(O),
    Done(Result<T, VaultError>),
}

/// What a [`Step`] is.
#[verifier::ext_equal]
pub enum StepView<O, T> {
    Ask(O),
    Done(Result<T, VaultError>),
}

impl<O: View, T: View> View for Step<O, T> {
    type V = StepView<O::V, T::V>;

    open spec fn view(&self) -> StepView<O::V, T::V> {
        match *self {
            Step::Ask(operation) => StepView::Ask(operation@),
            Step::Done(Ok(value)) => StepView::Done(Ok(value@)),
            Step::Done(Err(error)) => StepView::Done(Err(error)),
        }
    }
}

/// What a [`Request`] says.
#[verifier::ext_equal]
pub enum RequestView {
    Lock,
    Truncate,
    Length,
    Read { offset: u64, length: usize },
    Write { offset: u64, bytes: Seq<u8> },
    Sync,
}

impl View for Request {
    type V = RequestView;

    open spec fn view(&self) -> RequestView {
        match *self {
            Request::Lock => RequestView::Lock,
            Request::Truncate => RequestView::Truncate,
            Request::Length => RequestView::Length,
            Request::Read { offset, length } => RequestView::Read { offset, length },
            Request::Write { offset, bytes } => RequestView::Write { offset, bytes: bytes@ },
            Request::Sync => RequestView::Sync,
        }
    }
}

/// The views of a sequence of requests.
pub open spec fn request_views(requests: Seq<Request>) -> Seq<RequestView> {
    Seq::new(requests.len(), |i: int| requests[i]@)
}

/// A reply of the kind that the request calls for.
pub open spec fn answers(request: RequestView, reply: Reply) -> bool {
    match reply {
        Reply::Failed(_) => true,
        Reply::Done => request is Lock || request is Truncate || request is Write
            || request is Sync,
        Reply::Length(_) => request is Length,
        Reply::Bytes(bytes) => request is Read && bytes@.len() == request->length,
    }
}

/// The image after `bytes` were written at `offset`. Between the old end and a later offset the
/// file fills up with zeros; to write nothing changes nothing.
pub open spec fn write_at(image: Seq<u8>, offset: int, bytes: Seq<u8>) -> Seq<u8> {
    if bytes.len() == 0 {
        image
    } else {
        let end = offset + bytes.len();
        let len = if image.len() > end {
            image.len() as int
        } else {
            end
        };
        Seq::new(
            len as nat,
            |i: int|
                if offset <= i < end {
                    bytes[i - offset]
                } else if i < image.len() {
                    image[i]
                } else {
                    0u8
                },
        )
    }
}

/// The image after a request was carried out.
pub open spec fn after(image: Seq<u8>, request: RequestView) -> Seq<u8> {
    match request {
        RequestView::Truncate => Seq::empty(),
        RequestView::Write { offset, bytes } => write_at(image, offset as int, bytes),
        _ => image,
    }
}

/// The image after a sequence of requests was carried out.
pub open spec fn after_all(image: Seq<u8>, requests: Seq<RequestView>) -> Seq<u8>
    decreases requests.len(),
{
    if requests.len() == 0 {
        image
    } else {
        after(after_all(image, requests.drop_last()), requests.last())
    }
}

/// What a file with the given image answers when it does as it is asked. A read beyond the end
/// fails, as no file can satisfy it.
pub open spec fn honest(image: Seq<u8>, request: RequestView, reply: Reply) -> bool {
    match request {
        RequestView::Length => reply matches Reply::Length(n) && n == image.len(),
        RequestView::Read { offset, length } => if offset + length <= image.len() {
            reply matches Reply::Bytes(bytes) && bytes@ == image.subrange(
                offset as int,
                offset + length,
            )
        } else {
            reply is Failed
        },
        _ => reply is Done,
    }
}

/// The length as a size in memory.
pub fn memory_size(length: u64) -> (r: Result<usize, VaultError>)
    ensures
        length <= usize::MAX ==> r == Ok::<usize, VaultError>(length as usize),
        length > usize::MAX ==> r == Err::<usize, VaultError>(VaultError::IntegerOverflow),
{
    if length <= usize::MAX as u64 {
        Ok(length as usize)
    } else {
        Err(VaultError::IntegerOverflow)
    }
}

/// What was written is what stands there.
pub proof fn law_write_then_read(image: Seq<u8>, offset: int, bytes: Seq<u8>)
    requires
        0 <= offset,
        bytes.len() > 0,
    ensures
        write_at(image, offset, bytes).subrange(offset, offset + bytes.len()) == bytes,
        write_at(image, offset, bytes).len() >= image.len(),
{
    assert(write_at(image, offset, bytes).subrange(offset, offset + bytes.len()) =~= bytes);
}

/// A write leaves every region alone that it does not touch.
pub proof fn law_write_elsewhere(
    image: Seq<u8>,
    offset: int,
    bytes: Seq<u8>,
    start: int,
    end: int,
)
    requires
        0 <= offset,
        0 <= start <= end <= image.len(),
        end <= offset || offset + bytes.len() <= start,
    ensures
        write_at(image, offset, bytes).subrange(start, end) == image.subrange(start, end),
        write_at(image, offset, bytes).len() >= image.len(),
{
    assert(write_at(image, offset, bytes).subrange(start, end) =~= image.subrange(start, end));
}

/// Carrying out two sequences one behind the other is carrying out their concatenation.
pub proof fn lemma_after_all_concat(
    image: Seq<u8>,
    first: Seq<RequestView>,
    second: Seq<RequestView>,
)
    ensures
        after_all(image, first + second) == after_all(after_all(image, first), second),
    decreases second.len(),
{
    if second.len() == 0 {
        assert(first + second =~= first);
    } else {
        lemma_after_all_concat(image, first, second.drop_last());
        assert((first + second).drop_last() =~= first + second.drop_last());
    }
}

} // verus!
