//! The choice of object storage service and its connection settings.
use vstd::prelude::*;

verus! {

/// Settings of an Amazon S3 bucket.
#[derive(Debug)]
pub struct AmazonS3 {
    pub region: String,
    pub bucket_name: String,
}

/// Settings of a Google Cloud Storage bucket.
#[derive(Debug)]
pub struct GoogleCloudStorage {
    pub bucket_name: String,
}

/// Storage held in memory, for tests.
#[derive(Debug)]
pub struct InMemory {}

/// Storage under a directory of the local file system.
#[derive(Debug)]
pub struct File {
    pub root: String,
}

/// Settings of a Microsoft Azure blob container.
#[derive(Debug)]
pub struct MicrosoftAzure {
    pub account: String,
    pub container_name: String,
}

/// All supported object storage integrations.
#[derive(Debug)]
pub enum ObjectStoreIntegration {
    GoogleCloudStorage(GoogleCloudStorage),
    AmazonS3(AmazonS3),
    InMemory(InMemory),
    File(File),
    MicrosoftAzure(Box<MicrosoftAzure>),
}

/// Universal interface to multiple object store services.
#[derive(Debug)]
pub struct ObjectStore(pub ObjectStoreIntegration);

impl ObjectStore {
    /// Configure a connection to Amazon S3.
    pub fn new_amazon_s3(s3: AmazonS3) -> (r: Self)
        ensures
            r.0 == ObjectStoreIntegration::AmazonS3(s3),
    {
        ObjectStore(ObjectStoreIntegration::AmazonS3(s3))
    }

    /// Configure a connection to Google Cloud Storage.
    pub fn new_google_cloud_storage(gcs: GoogleCloudStorage) -> (r: Self)
        ensures
            r.0 == ObjectStoreIntegration::GoogleCloudStorage(gcs),
    {
        ObjectStore(ObjectStoreIntegration::GoogleCloudStorage(gcs))
    }

    /// Configure in-memory storage.
    pub fn new_in_memory(in_mem: InMemory) -> (r: Self)
        ensures
            r.0 == ObjectStoreIntegration::InMemory(in_mem),
    {
        ObjectStore(ObjectStoreIntegration::InMemory(in_mem))
    }

    /// Configure local file storage.
    pub fn new_file(file: File) -> (r: Self)
        ensures
            r.0 == ObjectStoreIntegration::File(file),
    {
        ObjectStore(ObjectStoreIntegration::File(file))
    }

    /// Configure a connection to Microsoft Azure Blob store.
    pub fn new_microsoft_azure(azure: MicrosoftAzure) -> (r: Self)
        ensures
            r.0 matches ObjectStoreIntegration::MicrosoftAzure(b) && *b == azure,
    {
        ObjectStore(ObjectStoreIntegration::MicrosoftAzure(Box::new(azure)))
    }

}

} // verus!
