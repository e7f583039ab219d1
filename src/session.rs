//! One authenticated user's state: the credential that reaches the
//! competition service, and the documents fetched with it, one per
//! competition.
//!
//! Fetching and rendering happen outside: the methods here take what a
//! fetch or a render returned and decide what the session holds next.

use vstd::prelude::*;

use crate::error::ServiceError;
use crate::keyed::KeyedList;

verus! {

/// The cached document of a competition, if any.
pub open spec fn cached<D>(documents: Map<Seq<char>, D>, competition: Seq<char>) -> Option<D> {
    if documents.contains_key(competition) {
        Some(documents[competition])
    } else {
        None
    }
}

/// One get-or-fetch of `competition`: the cached document where there is
/// one, else `fetched`, which is then cached. Gives the documents after the
/// call, the document returned, and whether a fetch was needed.
pub open spec fn get_or_fetch<D>(documents: Map<Seq<char>, D>, competition: Seq<char>, fetched: D) -> (
    Map<Seq<char>, D>,
    D,
    bool,
) {
    match cached(documents, competition) {
        Some(d) => (documents, d, false),
        None => (documents.insert(competition, fetched), fetched, true),
    }
}

/// Two get-or-fetch calls in a row return the same document, and only the
/// first can need a fetch, exactly when nothing was cached. A forced
/// refresh always stores what was fetched, whatever was cached.
pub proof fn lemma_fetch_once<D>(
    documents: Map<Seq<char>, D>,
    competition: Seq<char>,
    first_fetch: D,
    second_fetch: D,
)
    ensures
        ({
            let (after_first, first, fetched_first) = get_or_fetch(
                documents,
                competition,
                first_fetch,
            );
            let (after_second, second, fetched_second) = get_or_fetch(
                after_first,
                competition,
                second_fetch,
            );
            &&& second == first
            &&& !fetched_second
            &&& after_second == after_first
            &&& fetched_first == (cached(documents, competition) is None)
        }),
        cached(documents.insert(competition, first_fetch), competition) == Some(first_fetch),
{
}

/// Checking a document out and back in leaves it cached: the next
/// get-or-fetch returns it without a fetch.
pub proof fn lemma_checkin_restores<D>(
    documents: Map<Seq<char>, D>,
    competition: Seq<char>,
    document: D,
    unused_fetch: D,
)
    ensures
        ({
            let restored = documents.remove(competition).insert(competition, document);
            let (after, returned, fetched) = get_or_fetch(restored, competition, unused_fetch);
            &&& returned == document
            &&& !fetched
            &&& after == restored
        }),
{
}

/// The documents after a failed operation on `competition`: the document
/// checked out for it, if any, is back.
pub open spec fn restored<D>(
    documents: Map<Seq<char>, D>,
    competition: Seq<char>,
    original: Option<D>,
) -> Map<Seq<char>, D> {
    match original {
        Some(d) => documents.insert(competition, d),
        None => documents,
    }
}

/// A loan of `competition`'s document that fails leaves the cache as it was
/// before the loan: the document checked out, if one was cached, is back.
pub proof fn lemma_failed_loan_restores<D>(documents: Map<Seq<char>, D>, competition: Seq<char>)
    ensures
        restored(
            documents.remove(competition),
            competition,
            cached(documents, competition),
        ) == documents,
{
    assert(restored(documents.remove(competition), competition, cached(documents, competition))
        =~= documents);
}

/// A session: the credential (absent while it is lent out) and the
/// document cache.
pub struct Session<C, D> {
    oauth: Option<C>,
    wcif: KeyedList<D>,
}

impl<C, D> Session<C, D> {
    /// The credential, or `None` while it is lent out.
    pub closed spec fn credential(&self) -> Option<C> {
        self.oauth
    }

    /// The cached documents, by competition.
    pub closed spec fn documents(&self) -> Map<Seq<char>, D> {
        self.wcif@
    }

    /// The cache is well formed.
    pub closed spec fn wf(&self) -> bool {
        self.wcif.wf()
    }

    /// A fresh session holding `oauth` and no documents.
    pub fn new(oauth: C) -> (r: Session<C, D>)
        ensures
            r.wf(),
            r.credential() == Some(oauth),
            r.documents() == Map::<Seq<char>, D>::empty(),
    {
        Session { oauth: Some(oauth), wcif: KeyedList::new() }
    }

    /// Whether the credential is lent out.
    pub fn credential_on_loan(&self) -> (r: bool)
        ensures
            r == self.credential() is None,
    {
        self.oauth.is_none()
    }

    /// The credential, for a call to the competition service; fails while
    /// it is lent out.
    pub fn oauth_mut(&mut self) -> (r: Result<&mut C, ServiceError>)
        ensures
            match r {
                Ok(c) => old(self).credential() == Some(*c) && final(self).credential() == Some(
                    *final(c),
                ) && final(self).documents() == old(self).documents() && final(self).wf()
                    == old(self).wf(),
                Err(e) => e == ServiceError::CredentialOnLoan && old(self).credential() is None
                    && *final(self) == *old(self),
            },
    {
        match self.oauth.as_mut() {
            Some(c) => Ok(c),
            None => Err(ServiceError::CredentialOnLoan),
        }
    }

    /// The cached document of `competition`, if any: a cache hit needs no
    /// fetch.
    pub fn wcif(&self, competition: &str) -> (r: Option<&D>)
        requires
            self.wf(),
        ensures
            match r {
                Some(d) => cached(self.documents(), competition@) == Some(*d),
                None => cached(self.documents(), competition@) is None,
            },
    {
        self.wcif.get(competition)
    }

    /// The cached document of `competition`, if any, for changing in place.
    pub fn wcif_mut(&mut self, competition: &str) -> (r: Option<&mut D>)
        requires
            old(self).wf(),
        ensures
            final(self).credential() == old(self).credential(),
            match r {
                Some(d) => {
                    &&& cached(old(self).documents(), competition@) == Some(*d)
                    &&& final(self).wf()
                    &&& final(self).documents() == old(self).documents().insert(
                        competition@,
                        *final(d),
                    )
                },
                None => cached(old(self).documents(), competition@) is None && *final(self)
                    == *old(self),
            },
    {
        self.wcif.get_mut(competition)
    }

    /// Stores what a fetch of `competition`'s document returned, in place
    /// of any cached copy. A failed fetch leaves the cache as it was.
    pub fn wcif_force_download<E>(&mut self, competition: &str, fetched: Result<D, E>) -> (r:
        Result<(), ServiceError>)
        requires
            old(self).wf(),
        ensures
            final(self).wf(),
            final(self).credential() == old(self).credential(),
            match fetched {
                Ok(d) => r is Ok && final(self).documents() == old(self).documents().insert(
                    competition@,
                    d,
                ),
                Err(_) => r == Err::<(), ServiceError>(ServiceError::DocumentFetchFailed)
                    && final(self).documents() == old(self).documents(),
            },
    {
        match fetched {
            Ok(d) => {
                self.wcif.insert(competition.to_string(), d);
                Ok(())
            },
            Err(_) => Err(ServiceError::DocumentFetchFailed),
        }
    }

    /// Checks out `competition`'s document: takes it out of the cache if
    /// it is there. `None` means the caller fetches it, and the fetched
    /// copy is not cached.
    pub fn remove_wcif(&mut self, competition: &str) -> (r: Option<D>)
        requires
            old(self).wf(),
        ensures
            final(self).wf(),
            final(self).credential() == old(self).credential(),
            r == cached(old(self).documents(), competition@),
            final(self).documents() == old(self).documents().remove(competition@),
    {
        self.wcif.remove(competition)
    }

    /// Checks a document in: stores it under `competition`, in place of
    /// whatever is there.
    pub fn insert_wcif(&mut self, competition: &str, wcif: D)
        requires
            old(self).wf(),
        ensures
            final(self).wf(),
            final(self).credential() == old(self).credential(),
            final(self).documents() == old(self).documents().insert(competition@, wcif),
    {
        self.wcif.insert(competition.to_string(), wcif);
    }

    /// Begins an operation that needs the credential and `competition`'s
    /// document by value: lends the credential out and checks the
    /// document out (`None`: not cached, the caller fetches it with the
    /// lent credential). Fails, changing nothing, while the credential is
    /// already lent out.
    pub fn begin_loan(&mut self, competition: &str) -> (r: Result<(C, Option<D>), ServiceError>)
        requires
            old(self).wf(),
        ensures
            final(self).wf(),
            match old(self).credential() {
                Some(c) => r == Ok::<(C, Option<D>), ServiceError>(
                    (c, cached(old(self).documents(), competition@)),
                ) && final(self).credential() is None && final(self).documents() == old(
                    self,
                ).documents().remove(competition@),
                None => r == Err::<(C, Option<D>), ServiceError>(ServiceError::CredentialOnLoan)
                    && *final(self) == *old(self),
            },
    {
        let mut lent: Option<C> = None;
        std::mem::swap(&mut self.oauth, &mut lent);
        match lent {
            Some(c) => {
                let document = self.wcif.remove(competition);
                Ok((c, document))
            },
            None => Err(ServiceError::CredentialOnLoan),
        }
    }

    /// Ends such an operation: the credential comes back, and so does a
    /// document. Where the operation succeeded, the document it returned
    /// is cached. Where it failed, `original` (the document that was
    /// checked out, if one was cached) is put back, and the failure is
    /// reported.
    pub fn end_loan<E>(
        &mut self,
        competition: &str,
        oauth: C,
        original: Option<D>,
        outcome: Result<D, E>,
    ) -> (r: Result<(), ServiceError>)
        requires
            old(self).wf(),
        ensures
            final(self).wf(),
            final(self).credential() == Some(oauth),
            match outcome {
                Ok(d) => r is Ok && final(self).documents() == old(self).documents().insert(
                    competition@,
                    d,
                ),
                Err(_) => r == Err::<(), ServiceError>(ServiceError::RenderFailed)
                    && final(self).documents() == restored(
                    old(self).documents(),
                    competition@,
                    original,
                ),
            },
    {
        self.oauth = Some(oauth);
        match outcome {
            Ok(d) => {
                self.wcif.insert(competition.to_string(), d);
                Ok(())
            },
            Err(_) => {
                match original {
                    Some(d) => self.wcif.insert(competition.to_string(), d),
                    None => {},
                }
                Err(ServiceError::RenderFailed)
            },
        }
    }

    /// Takes what the fetch of a document that was not cached returned,
    /// while the credential is lent out. A fetched document is handed on
    /// together with the credential, and nothing changes; a failed fetch
    /// gives the credential back, leaves the documents as they are, and is
    /// reported.
    pub fn loan_fetched<E>(&mut self, oauth: C, fetched: Result<D, E>) -> (r: Result<
        (C, D),
        ServiceError,
    >)
        requires
            old(self).wf(),
        ensures
            final(self).wf(),
            final(self).documents() == old(self).documents(),
            match fetched {
                Ok(d) => r == Ok::<(C, D), ServiceError>((oauth, d)) && *final(self) == *old(
                    self,
                ),
                Err(_) => r == Err::<(C, D), ServiceError>(ServiceError::DocumentFetchFailed)
                    && final(self).credential() == Some(oauth),
            },
    {
        match fetched {
            Ok(d) => Ok((oauth, d)),
            Err(_) => {
                self.oauth = Some(oauth);
                Err(ServiceError::DocumentFetchFailed)
            },
        }
    }

    /// One get-or-fetch of `competition`, given what the fetch returned
    /// (a caller fetches only when [`Session::wcif`] finds nothing): a
    /// cached document stays and `fetched` is not used; otherwise a fetched
    /// document is cached, and a failed fetch is reported with the cache
    /// left as it was.
    pub fn get_or_store<E>(&mut self, competition: &str, fetched: Result<D, E>) -> (r: Result<
        (),
        ServiceError,
    >)
        requires
            old(self).wf(),
        ensures
            final(self).wf(),
            final(self).credential() == old(self).credential(),
            match (cached(old(self).documents(), competition@), fetched) {
                (Some(_), _) => r is Ok && *final(self) == *old(self),
                (None, Ok(d)) => r is Ok && ({
                    let (after, returned, needed_fetch) = get_or_fetch(
                        old(self).documents(),
                        competition@,
                        d,
                    );
                    &&& final(self).documents() == after
                    &&& cached(final(self).documents(), competition@) == Some(returned)
                    &&& needed_fetch
                }),
                (None, Err(_)) => r == Err::<(), ServiceError>(ServiceError::DocumentFetchFailed)
                    && *final(self) == *old(self),
            },
    {
        if self.wcif.contains_key(competition) {
            return Ok(());
        }
        match fetched {
            Ok(d) => {
                self.wcif.insert(competition.to_string(), d);
                Ok(())
            },
            Err(_) => Err(ServiceError::DocumentFetchFailed),
        }
    }
}

} // verus!
