# file2video

A codec that carries files inside raw video frames. The library under `src/` is written in Verus:
every function states what it does and is proved to do it.

There are two ways of carrying a file.

* Slots: `encoder` cuts a file into slots of bits with repeat-accumulate parity (`fec`, `mapper`),
  puts strengthened metadata in front (`session`), and draws them as blocks of luma (`phy_layout`,
  `phy_channel`). `decoder` reads them back. `chunks` tracks which parts of a stream are complete.
  What holds from end to end is in `laws` and `lock_laws`.
* The framed link: `link_plan` and `link_layout` lay frames out, `stream_coder` turns a stream into
  LDPC codewords (`ldpc`, `qc`, `parity_rows`, `gf2`), and `link_encoder` draws them with locators, a
  Reed-Solomon coded boot message (`boot`, `rs_codec`) and a calibration strip (`link_draw`,
  `link_frame`). `link_decoder`, `llr` and `interleave` put what is received together again. What
  holds from end to end is in `link_laws` and `link_run`.

Floating-point numbers enter the library as their bit patterns (`float_bits`). What computes with
them, and all input and output, is in `app/`; what is decided by them is in the library
(`soft_decisions`, `calibration`, `geom_search`, `integral`).

The checksums come from `crc32fast` and `sha2` (`checksum`): the first is believed to be the CRC-32 of
IEEE 802.3, the second to be a function of its bytes. Of the standard library, `String::push` is
believed to append a character (`bytes`).
